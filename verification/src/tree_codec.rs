//! The binary tree format (`SDTR`, version 1).
//!
//! A tree is written as an 8-byte header (`SDTR`, version 1, flags 0, two
//! reserved zero bytes) and a payload: the entry count as a 32-bit
//! little-endian number, then for each entry its type byte (0 blob, 1 tree),
//! its name length (16-bit little-endian), the name's UTF-8 bytes and the
//! 32 raw bytes of its hash. Sizes are not stored.

use vstd::prelude::*;
use vstd::utf8::{decode_utf8, encode_utf8, valid_utf8};
use crate::binary::{
    from_le16, from_le32, le16, le32, lemma_le16_roundtrip, lemma_le32_roundtrip, BinaryReader,
    BinaryWriter, CodecError,
};
use crate::hashing::{
    hex_decodable, hex_decode, hex_encode, sha256, spec_hex_decode, spec_hex_encode, spec_sha256,
};
use crate::objects::{Tree, TreeEntry};
use crate::order::lex_le;
use crate::text::string_from_utf8;

verus! {

/// An entry as the format sees it: type byte, name bytes, hash bytes.
pub type RawEntry = (u8, Seq<u8>, Seq<u8>);

/// Largest number of entries a tree may declare.
pub const MAX_TREE_ENTRIES: u32 = 1_000_000;

/// Longest entry name, in bytes.
pub const MAX_NAME_LEN: u16 = 4096;

/// The 8-byte header: magic `SDTR`, version 1, flags 0, reserved 0.
pub open spec fn tree_header() -> Seq<u8> {
    seq![83u8, 68u8, 84u8, 82u8, 1u8, 0u8, 0u8, 0u8]
}

/// The encoding of one entry.
pub open spec fn encode_entry(e: RawEntry) -> Seq<u8> {
    seq![e.0] + le16((e.1.len() % 65536) as u16) + e.1 + e.2
}

/// The encodings of entries, one after the other.
pub open spec fn encode_entries(es: Seq<RawEntry>) -> Seq<u8>
    decreases es.len(),
{
    if es.len() == 0 {
        Seq::empty()
    } else {
        encode_entry(es[0]) + encode_entries(es.drop_first())
    }
}

/// The payload: entry count, then the entries. Its SHA-256 is the tree's digest.
pub open spec fn tree_payload(es: Seq<RawEntry>) -> Seq<u8> {
    le32((es.len() % 4294967296) as u32) + encode_entries(es)
}

/// The type byte of an entry.
pub open spec fn entry_kind(e: TreeEntry) -> u8 {
    match e {
        TreeEntry::Blob { .. } => 0,
        TreeEntry::Tree { .. } => 1,
    }
}

/// The hash text of an entry, as UTF-8 bytes.
pub open spec fn hash_text_bytes(e: (String, TreeEntry)) -> Seq<u8> {
    encode_utf8(e.1.spec_hash())
}

/// An entry whose hash can be written: 64 hex digits.
pub open spec fn hash_writable(e: (String, TreeEntry)) -> bool {
    hex_decodable(hash_text_bytes(e)) && hash_text_bytes(e).len() == 64
}

/// How an in-memory entry is written.
pub open spec fn raw_of(e: (String, TreeEntry)) -> RawEntry {
    (entry_kind(e.1), encode_utf8(e.0@), spec_hex_decode(hash_text_bytes(e)))
}

/// The format view of a list of entries.
pub open spec fn raws_of(entries: Seq<(String, TreeEntry)>) -> Seq<RawEntry> {
    entries.map_values(|e: (String, TreeEntry)| raw_of(e))
}

pub proof fn lemma_encode_entries_push(es: Seq<RawEntry>, e: RawEntry)
    ensures
        encode_entries(es.push(e)) =~= encode_entries(es) + encode_entry(e),
    decreases es.len(),
{
    if es.len() == 0 {
        assert(es.push(e).drop_first() =~= Seq::<RawEntry>::empty());
        assert(encode_entries(Seq::<RawEntry>::empty()) =~= Seq::<u8>::empty());
        assert(es.push(e)[0] == e);
    } else {
        lemma_encode_entries_push(es.drop_first(), e);
        assert(es.push(e).drop_first() =~= es.drop_first().push(e));
    }
}

/// Why writing an entry fails, when it does.
pub open spec fn write_error_for(e: (String, TreeEntry)) -> CodecError {
    if hex_decodable(hash_text_bytes(e)) {
        CodecError::InvalidHashLength
    } else {
        CodecError::InvalidHash
    }
}

impl Tree {
    /// Writes the tree in the binary format to `w` and returns the SHA-256 of
    /// all the bytes written, header included: the tree's content address.
    /// Fails, writing nothing, at the first entry whose hash is not 64 hex
    /// digits.
    pub fn write_binary(&self, w: &mut Vec<u8>) -> (r: Result<Vec<u8>, CodecError>)
        ensures
            r is Ok <==> (forall|i: int|
                0 <= i < self.entries@.len() ==> hash_writable(#[trigger] self.entries@[i])),
            r matches Ok(h) ==> {
                &&& final(w)@ == old(w)@ + tree_header() + tree_payload(raws_of(self.entries@))
                &&& h@ == spec_sha256(tree_header() + tree_payload(raws_of(self.entries@)))
            },
            r matches Err(e) ==> {
                &&& final(w)@ == old(w)@
                &&& exists|k: int|
                    0 <= k < self.entries@.len() && !hash_writable(#[trigger] self.entries@[k]) && (
                    forall|j: int| 0 <= j < k ==> hash_writable(#[trigger] self.entries@[j]))
                        && e == write_error_for(self.entries@[k])
            },
    {
        let n = self.entries.len();
        let ghost raws = raws_of(self.entries@);
        let mut pw = BinaryWriter::new(Vec::new());
        pw.write_u32(((n as u64) % 4294967296) as u32);
        let mut i: usize = 0;
        while i < n
            invariant
                n == self.entries@.len(),
                raws == raws_of(self.entries@),
                i <= n,
                pw@ =~= le32(((n as int) % 4294967296) as u32) + encode_entries(raws.take(i as int)),
                forall|j: int| 0 <= j < i ==> hash_writable(#[trigger] self.entries@[j]),
            decreases n - i,
        {
            let (name, entry) = &self.entries[i];
            let (t, hash_str): (u8, &String) = match entry {
                TreeEntry::Blob { hash, .. } => (0u8, hash),
                TreeEntry::Tree { hash } => (1u8, hash),
            };
            let hash_bytes = match hex_decode(hash_str.as_str()) {
                Ok(b) => b,
                Err(_) => {
                    return Err(CodecError::InvalidHash);
                },
            };
            if hash_bytes.len() != 32 {
                return Err(CodecError::InvalidHashLength);
            }
            let name_bytes = name.as_str().as_bytes();
            proof {
                lemma_encode_entries_push(raws.take(i as int), raws[i as int]);
                assert(raws.take(i + 1) =~= raws.take(i as int).push(raws[i as int]));
            }
            pw.write_u8(t);
            pw.write_u16(((name_bytes.len() as u64) % 65536) as u16);
            pw.write_bytes(name_bytes);
            pw.write_bytes(hash_bytes.as_slice());
            i = i + 1;
        }
        assert(raws.take(n as int) =~= raws);
        let payload = pw.into_inner();
        let mut hw = BinaryWriter::new(Vec::new());
        hw.write_u8(83);
        hw.write_u8(68);
        hw.write_u8(84);
        hw.write_u8(82);
        hw.write_u8(1);
        hw.write_u8(0);
        hw.write_u16(0);
        hw.write_bytes(payload.as_slice());
        let bytes = hw.into_inner();
        assert(bytes@ =~= tree_header() + payload@);
        let digest = sha256(bytes.as_slice());
        w.extend_from_slice(bytes.as_slice());
        Ok(digest)
    }
}

/// Decoding of one entry from the front of `s`, with what follows it.
pub open spec fn parse_entry(s: Seq<u8>) -> Result<(RawEntry, Seq<u8>), CodecError> {
    if s.len() < 1 {
        Err(CodecError::UnexpectedEof)
    } else {
        let t = s[0];
        let s1 = s.skip(1);
        if s1.len() < 2 {
            Err(CodecError::UnexpectedEof)
        } else {
            let len = from_le16(s1) as int;
            let s2 = s1.skip(2);
            if len == 0 || len > MAX_NAME_LEN {
                Err(CodecError::InvalidNameLength)
            } else if s2.len() < len {
                Err(CodecError::UnexpectedEof)
            } else {
                let name = s2.take(len);
                let s3 = s2.skip(len);
                if !valid_utf8(name) {
                    Err(CodecError::InvalidUtf8Name)
                } else if s3.len() < 32 {
                    Err(CodecError::UnexpectedEof)
                } else if t > 1 {
                    Err(CodecError::InvalidEntryType)
                } else {
                    Ok(((t, name, s3.take(32)), s3.skip(32)))
                }
            }
        }
    }
}

/// Puts decoded entries in front of a decoding result.
pub open spec fn prepend(
    done: Seq<RawEntry>,
    r: Result<(Seq<RawEntry>, Seq<u8>), CodecError>,
) -> Result<(Seq<RawEntry>, Seq<u8>), CodecError> {
    match r {
        Ok((es, rest)) => Ok((done + es, rest)),
        Err(e) => Err(e),
    }
}

/// Decoding of `n` entries from the front of `s`.
pub open spec fn parse_entries(s: Seq<u8>, n: nat) -> Result<(Seq<RawEntry>, Seq<u8>), CodecError>
    decreases n,
{
    if n == 0 {
        Ok((Seq::empty(), s))
    } else {
        match parse_entry(s) {
            Ok((e, rest)) => prepend(seq![e], parse_entries(rest, (n - 1) as nat)),
            Err(e) => Err(e),
        }
    }
}

/// Decoding of a whole tree, up to the tree invariants: header checks, the
/// entry count limit, then the entries. Bytes after the last entry are ignored.
pub open spec fn parse_tree_raw(d: Seq<u8>) -> Result<Seq<RawEntry>, CodecError> {
    if d.len() < 4 {
        Err(CodecError::UnexpectedEof)
    } else if d.take(4) != seq![83u8, 68u8, 84u8, 82u8] {
        Err(CodecError::InvalidMagic)
    } else if d.len() < 5 {
        Err(CodecError::UnexpectedEof)
    } else if d[4] != 1 {
        Err(CodecError::UnsupportedVersion)
    } else if d.len() < 12 {
        Err(CodecError::UnexpectedEof)
    } else {
        let count = from_le32(d.skip(8));
        if count > MAX_TREE_ENTRIES {
            Err(CodecError::TooManyEntries)
        } else {
            match parse_entries(d.skip(12), count as nat) {
                Ok((es, _)) => Ok(es),
                Err(e) => Err(e),
            }
        }
    }
}

/// The tree invariants, read off decoded entries: names (decoded from UTF-8)
/// unique and free of separators, name bytes in sorted order.
pub open spec fn raws_valid(raws: Seq<RawEntry>) -> bool {
    &&& forall|i: int, j: int|
        0 <= i < j < raws.len() ==> decode_utf8(#[trigger] raws[i].1) != decode_utf8(#[trigger] raws[j].1)
    &&& forall|i: int| 0 <= i < raws.len() ==> !crate::objects::has_separator(decode_utf8(#[trigger] raws[i].1))
    &&& forall|i: int| 1 <= i < raws.len() ==> lex_le(raws[i - 1].1, #[trigger] raws[i].1)
}

/// An in-memory entry that a decoded entry turns into: the name is the decoded
/// text, the hash its lowercase hex spelling, and blob sizes are 0.
pub open spec fn entry_matches_raw(e: (String, TreeEntry), raw: RawEntry) -> bool {
    &&& e.0@ == decode_utf8(raw.1)
    &&& match e.1 {
        TreeEntry::Blob { hash, size } => raw.0 == 0 && size == 0 && hash@ == spec_hex_encode(raw.2),
        TreeEntry::Tree { hash } => raw.0 == 1 && hash@ == spec_hex_encode(raw.2),
    }
}

/// Reads one entry, as `parse_entry` says.
fn read_entry(br: &mut BinaryReader) -> (r: Result<(String, TreeEntry), CodecError>)
    requires
        old(br).wf(),
    ensures
        final(br).wf(),
        final(br).data() == old(br).data(),
        match parse_entry(old(br).remaining()) {
            Ok((raw, rest)) => (r matches Ok(e) && entry_matches_raw(e, raw)) && final(br).remaining()
                == rest,
            Err(e) => r == Err::<(String, TreeEntry), CodecError>(e),
        },
{
    let ghost s = br.remaining();
    let t = match br.read_u8() {
        Ok(v) => v,
        Err(e) => {
            return Err(e);
        },
    };
    let name_len = match br.read_u16() {
        Ok(v) => v,
        Err(e) => {
            return Err(e);
        },
    };
    if name_len == 0 || name_len > MAX_NAME_LEN {
        return Err(CodecError::InvalidNameLength);
    }
    let name_bytes = match br.read_bytes(name_len as usize) {
        Ok(v) => v,
        Err(e) => {
            return Err(e);
        },
    };
    let name = match string_from_utf8(name_bytes) {
        Ok(n) => n,
        Err(_) => {
            return Err(CodecError::InvalidUtf8Name);
        },
    };
    let hash_vec = match br.read_bytes(32) {
        Ok(v) => v,
        Err(e) => {
            return Err(e);
        },
    };
    let hash = hex_encode(hash_vec.as_slice());
    if t == 0 {
        Ok((name, TreeEntry::Blob { hash, size: 0 }))
    } else if t == 1 {
        Ok((name, TreeEntry::Tree { hash }))
    } else {
        Err(CodecError::InvalidEntryType)
    }
}

pub proof fn lemma_prepend_prepend(
    a: Seq<RawEntry>,
    b: Seq<RawEntry>,
    r: Result<(Seq<RawEntry>, Seq<u8>), CodecError>,
)
    ensures
        prepend(a, prepend(b, r)) == prepend(a + b, r),
{
    match r {
        Ok((es, rest)) => {
            assert(a + (b + es) =~= (a + b) + es);
        },
        Err(_) => {},
    }
}

impl Tree {
    /// Reads a tree in the binary format: the header, at most
    /// `MAX_TREE_ENTRIES` entries, then the tree invariants.
    pub fn read_binary(data: &[u8]) -> (r: Result<Tree, CodecError>)
        ensures
            match parse_tree_raw(data@) {
                Err(e) => r == Err::<Tree, CodecError>(e),
                Ok(raws) => {
                    &&& r is Ok <==> raws_valid(raws)
                    &&& r matches Ok(t) ==> {
                        &&& t.entries@.len() == raws.len()
                        &&& forall|i: int|
                            0 <= i < raws.len() ==> entry_matches_raw(
                                #[trigger] t.entries@[i],
                                raws[i],
                            )
                        &&& t.spec_valid()
                    }
                    &&& r matches Err(e) ==> (e matches CodecError::InvalidTree(m) && exists|t: Tree|
                        t.entries@.len() == raws.len() && (forall|i: int|
                            0 <= i < raws.len() ==> entry_matches_raw(#[trigger] t.entries@[i], raws[i]))
                            && crate::objects::is_tree_error(t.entries@, m@))
                },
            },
    {
        let mut br = BinaryReader::new(vstd::slice::slice_to_vec(data));
        let ghost d = data@;
        let magic = match br.read_bytes(4) {
            Ok(m) => m,
            Err(e) => {
                return Err(e);
            },
        };
        if !(magic[0] == 83 && magic[1] == 68 && magic[2] == 84 && magic[3] == 82) {
            assert(d.take(4)[0] == magic@[0]);
            assert(d.take(4)[1] == magic@[1]);
            assert(d.take(4)[2] == magic@[2]);
            assert(d.take(4)[3] == magic@[3]);
            return Err(CodecError::InvalidMagic);
        }
        assert(d.take(4) =~= seq![83u8, 68u8, 84u8, 82u8]);
        let version = match br.read_u8() {
            Ok(v) => v,
            Err(e) => {
                return Err(e);
            },
        };
        if version != 1 {
            return Err(CodecError::UnsupportedVersion);
        }
        match br.read_u8() {
            Ok(_) => {},
            Err(e) => {
                return Err(e);
            },
        }
        match br.read_u16() {
            Ok(_) => {},
            Err(e) => {
                return Err(e);
            },
        }
        let entry_count = match br.read_u32() {
            Ok(v) => v,
            Err(e) => {
                return Err(e);
            },
        };
        assert(br.remaining() =~= d.skip(12));
        assert(d.skip(4).skip(1).skip(1).skip(2) =~= d.skip(8));
        if entry_count > MAX_TREE_ENTRIES {
            return Err(CodecError::TooManyEntries);
        }
        let ghost total = parse_entries(d.skip(12), entry_count as nat);
        assert(parse_tree_raw(d) == match total {
            Ok((es, _)) => Ok::<Seq<RawEntry>, CodecError>(es),
            Err(e) => Err(e),
        });
        let mut entries: Vec<(String, TreeEntry)> = Vec::new();
        let ghost mut raws: Seq<RawEntry> = Seq::empty();
        let mut k: u32 = 0;
        while k < entry_count
            invariant
                br.wf(),
                k <= entry_count,
                entries@.len() == k,
                raws.len() == k,
                total == parse_entries(d.skip(12), entry_count as nat),
                d == data@,
                parse_tree_raw(d) == match total {
                    Ok((es, _)) => Ok::<Seq<RawEntry>, CodecError>(es),
                    Err(e) => Err(e),
                },
                total == prepend(raws, parse_entries(br.remaining(), (entry_count - k) as nat)),
                forall|i: int| 0 <= i < k ==> entry_matches_raw(#[trigger] entries@[i], raws[i]),
            decreases entry_count - k,
        {
            let ghost rem = br.remaining();
            let e = read_entry(&mut br);
            match e {
                Ok(entry) => {
                    let ghost (raw, rest) = parse_entry(rem).unwrap();
                    proof {
                        lemma_prepend_prepend(raws, seq![raw], parse_entries(rest, (entry_count - k - 1) as nat));
                        raws = raws + seq![raw];
                    }
                    entries.push(entry);
                    k = k + 1;
                },
                Err(err) => {
                    assert(parse_entries(rem, (entry_count - k) as nat) == Err::<
                        (Seq<RawEntry>, Seq<u8>),
                        CodecError,
                    >(err));
                    return Err(err);
                },
            }
        }
        let tree = Tree { entries };
        assert(raws + Seq::<RawEntry>::empty() =~= raws);
        assert(parse_entries(br.remaining(), 0) == Ok::<(Seq<RawEntry>, Seq<u8>), CodecError>(
            (Seq::empty(), br.remaining()),
        ));
        assert(total->Ok_0.0 == raws);
        proof {
            assert forall|i: int| 0 <= i < raws.len() implies valid_utf8(#[trigger] raws[i].1) by {
                lemma_parsed_entries_utf8(d.skip(12), entry_count as nat, i);
            }
            assert forall|i: int| 0 <= i < raws.len() implies encode_utf8(#[trigger] tree.entries@[i].0@) == raws[i].1 by {
                vstd::utf8::decode_utf8_encode_utf8(raws[i].1);
            }
            let es = tree.entries@;
            assert forall|i: int| 0 <= i < raws.len() implies #[trigger] es[i].0@ == decode_utf8(raws[i].1) by {
                assert(entry_matches_raw(es[i], raws[i]));
            }
            if crate::objects::names_unique(es) {
                assert forall|i: int, j: int| 0 <= i < j < raws.len() implies decode_utf8(
                    #[trigger] raws[i].1,
                ) != decode_utf8(#[trigger] raws[j].1) by {
                    assert(es[i].0@ != es[j].0@);
                }
            }
            if raws_valid(raws) {
                assert forall|i: int, j: int| 0 <= i < j < es.len() implies #[trigger] es[i].0@
                    != #[trigger] es[j].0@ by {
                    assert(decode_utf8(raws[i].1) != decode_utf8(raws[j].1));
                }
                assert forall|i: int| 0 <= i < es.len() implies !crate::objects::has_separator(
                    #[trigger] es[i].0@,
                ) by {
                    assert(!crate::objects::has_separator(decode_utf8(raws[i].1)));
                }
            }
            if crate::objects::names_plain(es) {
                assert forall|i: int| 0 <= i < raws.len() implies !crate::objects::has_separator(
                    decode_utf8(#[trigger] raws[i].1),
                ) by {
                    assert(!crate::objects::has_separator(es[i].0@));
                }
            }
            if crate::objects::entries_sorted(es) {
                assert forall|i: int| 1 <= i < raws.len() implies lex_le(raws[i - 1].1, #[trigger] raws[i].1) by {
                    assert(crate::order::str_le(es[i - 1].0@, es[i].0@));
                    assert(encode_utf8(es[i - 1].0@) == raws[i - 1].1);
                    assert(encode_utf8(es[i].0@) == raws[i].1);
                }
            }
            if raws_valid(raws) {
                assert forall|i: int| 1 <= i < es.len() implies crate::order::str_le(es[i - 1].0@, #[trigger] es[i].0@) by {
                    assert(lex_le(raws[i - 1].1, raws[i].1));
                    assert(encode_utf8(es[i - 1].0@) == raws[i - 1].1);
                    assert(encode_utf8(es[i].0@) == raws[i].1);
                }
            }
        }
        match tree.validate() {
            Ok(()) => Ok(tree),
            Err(msg) => {
                assert(tree.entries@.len() == raws.len() && forall|i: int|
                    0 <= i < raws.len() ==> entry_matches_raw(#[trigger] tree.entries@[i], raws[i]));
                Err(CodecError::InvalidTree(msg))
            },
        }
    }
}

/// Entries that decode successfully have UTF-8 names.
pub proof fn lemma_parsed_entries_utf8(s: Seq<u8>, n: nat, i: int)
    requires
        parse_entries(s, n) is Ok,
        0 <= i < parse_entries(s, n)->Ok_0.0.len(),
    ensures
        valid_utf8(parse_entries(s, n)->Ok_0.0[i].1),
    decreases n,
{
    if n > 0 {
        let (e, rest) = parse_entry(s)->Ok_0;
        if i > 0 {
            lemma_parsed_entries_utf8(rest, (n - 1) as nat, i - 1);
        }
    }
}

/// A hash written the way the library writes hashes: 64 lowercase hex digits.
pub open spec fn is_lower_hash(s: Seq<char>) -> bool {
    &&& s.len() == 64
    &&& forall|i: int| 0 <= i < s.len() ==> ('0' <= #[trigger] s[i] <= '9') || ('a' <= s[i] <= 'f')
}

proof fn lemma_nibbles(x: int, y: int)
    requires
        0 <= x < 16,
        0 <= y < 16,
    ensures
        (x * 16 + y) / 16 == x,
        (x * 16 + y) % 16 == y,
        0 <= x * 16 + y < 256,
{
    assert((x * 16 + y) / 16 == x && (x * 16 + y) % 16 == y && 0 <= x * 16 + y < 256) by (nonlinear_arith)
        requires
            0 <= x < 16,
            0 <= y < 16,
    ;
}

/// Reading a lowercase hash as hex and spelling the bytes again gives it back.
pub proof fn lemma_lower_hash_hex_roundtrip(h: Seq<char>)
    requires
        is_lower_hash(h),
    ensures
        encode_utf8(h).len() == 64,
        hex_decodable(encode_utf8(h)),
        spec_hex_decode(encode_utf8(h)).len() == 32,
        spec_hex_encode(spec_hex_decode(encode_utf8(h))) == h,
{
    assert(vstd::utf8::is_ascii_chars(h));
    vstd::utf8::is_ascii_chars_encode_utf8(h);
    let b = encode_utf8(h);
    assert forall|i: int| 0 <= i < b.len() implies crate::hashing::is_hex_digit(#[trigger] b[i]) by {
        assert(h[i] as u8 == b[i]);
    }
    let d = spec_hex_decode(b);
    let e = spec_hex_encode(d);
    assert forall|i: int| 0 <= i < h.len() implies #[trigger] e[i] == h[i] by {
        let j = i / 2;
        let hi = crate::hashing::hex_digit_value(b[2 * j]);
        let lo = crate::hashing::hex_digit_value(b[2 * j + 1]);
        assert(h[2 * j] as u8 == b[2 * j]);
        assert(h[2 * j + 1] as u8 == b[2 * j + 1]);
        lemma_nibbles(hi, lo);
        assert(d[j] == (hi * 16 + lo) as u8);
        if i % 2 == 0 {
            assert(i == 2 * j);
            assert(crate::hashing::lower_hex_digit(hi) == b[i]);
        } else {
            assert(i == 2 * j + 1);
            assert(crate::hashing::lower_hex_digit(lo) == b[i]);
        }
    }
    assert(e =~= h);
}

/// An entry that the format can carry unchanged.
pub open spec fn raw_well_formed(e: RawEntry) -> bool {
    &&& e.0 <= 1
    &&& 1 <= e.1.len() <= MAX_NAME_LEN
    &&& valid_utf8(e.1)
    &&& e.2.len() == 32
}

pub proof fn lemma_parse_encoded_entry(e: RawEntry, rest: Seq<u8>)
    requires
        raw_well_formed(e),
    ensures
        parse_entry(encode_entry(e) + rest) == Ok::<(RawEntry, Seq<u8>), CodecError>((e, rest)),
{
    let s = encode_entry(e) + rest;
    let len = e.1.len();
    let l16 = (len % 65536) as u16;
    lemma_le16_roundtrip(l16);
    assert(s[0] == e.0);
    let s1 = s.skip(1);
    assert(s1 =~= le16(l16) + e.1 + e.2 + rest);
    assert(from_le16(s1) == from_le16(le16(l16)));
    let s2 = s1.skip(2);
    assert(s2 =~= e.1 + e.2 + rest);
    assert(s2.take(len as int) =~= e.1);
    let s3 = s2.skip(len as int);
    assert(s3 =~= e.2 + rest);
    assert(s3.take(32) =~= e.2);
    assert(s3.skip(32) =~= rest);
}

/// Byte layout of a written entry: the type byte, the name length as two
/// little-endian bytes, the name bytes, then the hash bytes exactly as they
/// are given, in the same order and nothing after them.
pub proof fn lemma_entry_layout(e: RawEntry)
    ensures
        encode_entry(e).len() == 3 + e.1.len() + e.2.len(),
        encode_entry(e)[0] == e.0,
        encode_entry(e)[1] == (e.1.len() % 256) as u8,
        encode_entry(e)[2] == ((e.1.len() % 65536) / 256) as u8,
        forall|j: int| 0 <= j < e.1.len() ==> encode_entry(e)[3 + j] == e.1[j],
        forall|j: int| 0 <= j < e.2.len() ==> #[trigger] encode_entry(e)[3 + e.1.len() + j] == e.2[j],
        encode_entry(e).skip(3 + e.1.len() as int) == e.2,
{
    let l16 = (e.1.len() % 65536) as u16;
    assert((l16 % 256) as u8 == (e.1.len() % 256) as u8) by {
        assert(l16 == e.1.len() % 65536);
        assert((e.1.len() % 65536) % 256 == e.1.len() % 256) by (nonlinear_arith);
    }
    assert(encode_entry(e).skip(3 + e.1.len() as int) =~= e.2);
}

/// Decoding an entry laid out byte by byte: a type byte of 0 or 1, a name
/// length of 1 to `MAX_NAME_LEN` as two little-endian bytes, that many bytes
/// of UTF-8 name, then 32 hash bytes, gives the type, the name and the 32
/// bytes as they stand, and leaves what follows untouched.
pub proof fn lemma_parse_entry_layout(t: u8, name: Seq<u8>, h: Seq<u8>, rest: Seq<u8>)
    requires
        t <= 1,
        1 <= name.len() <= MAX_NAME_LEN,
        valid_utf8(name),
        h.len() == 32,
    ensures
        parse_entry(
            seq![t, (name.len() % 256) as u8, (name.len() / 256) as u8] + name + h + rest,
        ) == Ok::<(RawEntry, Seq<u8>), CodecError>(((t, name, h), rest)),
{
    let s = seq![t, (name.len() % 256) as u8, (name.len() / 256) as u8] + name + h + rest;
    let s1 = s.skip(1);
    assert(from_le16(s1) == name.len()) by {
        assert(s1[0] == (name.len() % 256) as u8);
        assert(s1[1] == (name.len() / 256) as u8);
        assert(name.len() % 256 + 256 * (name.len() / 256) == name.len()) by (nonlinear_arith);
    }
    let s2 = s1.skip(2);
    assert(s2 =~= name + h + rest);
    assert(s2.take(name.len() as int) =~= name);
    let s3 = s2.skip(name.len() as int);
    assert(s3 =~= h + rest);
    assert(s3.take(32) =~= h);
    assert(s3.skip(32) =~= rest);
}

/// Byte layout of a written tree: `S`, `D`, `T`, `R`, version 1, flags 0,
/// two reserved zero bytes, the entry count as four little-endian bytes,
/// then the entries one after the other.
pub proof fn lemma_tree_layout(raws: Seq<RawEntry>)
    ensures
        ({
            let d = tree_header() + tree_payload(raws);
            let n = raws.len() % 4294967296;
            &&& d.len() == 12 + encode_entries(raws).len()
            &&& d[0] == 83 && d[1] == 68 && d[2] == 84 && d[3] == 82
            &&& d[4] == 1 && d[5] == 0 && d[6] == 0 && d[7] == 0
            &&& d[8] == n % 256 && d[9] == (n / 256) % 256
            &&& d[10] == (n / 65536) % 256 && d[11] == n / 16777216
            &&& d.skip(12) == encode_entries(raws)
            &&& forall|k: int| 0 <= k < raws.len() ==> encode_entries(raws).skip(
                encode_entries(raws.take(k)).len() as int,
            ).take(encode_entry(raws[k]).len() as int) == encode_entry(#[trigger] raws[k])
        }),
{
    let d = tree_header() + tree_payload(raws);
    let n = (raws.len() % 4294967296) as u32;
    lemma_le32_roundtrip(n);
    assert(d.skip(12) =~= encode_entries(raws));
    assert forall|k: int| 0 <= k < raws.len() implies encode_entries(raws).skip(
        encode_entries(raws.take(k)).len() as int,
    ).take(encode_entry(raws[k]).len() as int) == encode_entry(#[trigger] raws[k]) by {
        lemma_encode_entries_split(raws, k);
    }
}

/// The encodings of a list are those of its first `k` entries, then that of
/// entry `k`, then those of the rest.
proof fn lemma_encode_entries_split(raws: Seq<RawEntry>, k: int)
    requires
        0 <= k < raws.len(),
    ensures
        encode_entries(raws) == encode_entries(raws.take(k)) + encode_entry(raws[k]) + encode_entries(
            raws.skip(k + 1),
        ),
        encode_entries(raws).skip(encode_entries(raws.take(k)).len() as int).take(
            encode_entry(raws[k]).len() as int,
        ) == encode_entry(raws[k]),
    decreases k,
{
    if k == 0 {
        assert(raws.take(0) =~= Seq::<RawEntry>::empty());
        assert(raws.skip(1) =~= raws.drop_first());
        assert(encode_entries(raws.take(0)) =~= Seq::<u8>::empty());
    } else {
        let t = raws.drop_first();
        lemma_encode_entries_split(t, k - 1);
        assert(t.take(k - 1) =~= raws.take(k).drop_first());
        assert(raws.take(k)[0] == raws[0]);
        assert(t.skip(k) =~= raws.skip(k + 1));
        assert(t[k - 1] == raws[k]);
    }
    let a = encode_entries(raws.take(k));
    let e = encode_entry(raws[k]);
    let b = encode_entries(raws.skip(k + 1));
    assert((a + e + b).skip(a.len() as int).take(e.len() as int) =~= e);
}

/// Decoding a tree laid out byte by byte: the magic `SDTR`, version 1, any
/// flags and reserved bytes, and an entry count of at most
/// `MAX_TREE_ENTRIES` as four little-endian bytes, decodes that many
/// entries from the bytes that follow.
pub proof fn lemma_parse_tree_layout(flags: u8, r0: u8, r1: u8, c: Seq<u8>, body: Seq<u8>)
    requires
        c.len() == 4,
        c[0] + 256 * c[1] + 65536 * c[2] + 16777216 * c[3] <= MAX_TREE_ENTRIES,
    ensures
        parse_tree_raw(seq![83u8, 68u8, 84u8, 82u8, 1u8, flags, r0, r1] + c + body) == match parse_entries(
            body,
            (c[0] + 256 * c[1] + 65536 * c[2] + 16777216 * c[3]) as nat,
        ) {
            Ok((es, _)) => Ok::<Seq<RawEntry>, CodecError>(es),
            Err(e) => Err(e),
        },
{
    let d = seq![83u8, 68u8, 84u8, 82u8, 1u8, flags, r0, r1] + c + body;
    assert(d.take(4) =~= seq![83u8, 68u8, 84u8, 82u8]);
    assert(d.skip(8)[0] == c[0] && d.skip(8)[1] == c[1] && d.skip(8)[2] == c[2] && d.skip(8)[3] == c[3]);
    assert(d.skip(12) =~= body);
}

pub proof fn lemma_parse_encoded_entries(es: Seq<RawEntry>, rest: Seq<u8>)
    requires
        forall|i: int| 0 <= i < es.len() ==> raw_well_formed(#[trigger] es[i]),
    ensures
        parse_entries(encode_entries(es) + rest, es.len()) == Ok::<
            (Seq<RawEntry>, Seq<u8>),
            CodecError,
        >((es, rest)),
    decreases es.len(),
{
    if es.len() == 0 {
        assert(encode_entries(es) + rest =~= rest);
        assert(es =~= Seq::<RawEntry>::empty());
    } else {
        let tail = es.drop_first();
        assert(encode_entries(es) + rest =~= encode_entry(es[0]) + (encode_entries(tail) + rest));
        lemma_parse_encoded_entry(es[0], encode_entries(tail) + rest);
        assert(raw_well_formed(es[0]));
        lemma_parse_encoded_entries(tail, rest);
        assert(seq![es[0]] + tail =~= es);
    }
}

/// Two entries that agree in name, kind and hash (blob sizes aside).
pub open spec fn same_up_to_size(a: (String, TreeEntry), b: (String, TreeEntry)) -> bool {
    &&& a.0@ == b.0@
    &&& entry_kind(a.1) == entry_kind(b.1)
    &&& a.1.spec_hash() == b.1.spec_hash()
}

/// The preconditions of the round trip, entry by entry.
pub open spec fn roundtrip_ready(es: Seq<(String, TreeEntry)>) -> bool {
    forall|i: int|
        0 <= i < es.len() ==> 1 <= encode_utf8((#[trigger] es[i]).0@).len() <= MAX_NAME_LEN
            && is_lower_hash(es[i].1.spec_hash())
}

proof fn lemma_roundtrip_entries(es: Seq<(String, TreeEntry)>)
    requires
        roundtrip_ready(es),
    ensures
        forall|i: int| 0 <= i < es.len() ==> hash_writable(#[trigger] es[i]),
        forall|i: int| 0 <= i < es.len() ==> raw_well_formed(#[trigger] raws_of(es)[i]),
        forall|i: int| 0 <= i < es.len() ==> spec_hex_encode(#[trigger] raws_of(es)[i].2) == es[i].1.spec_hash(),
        forall|i: int| 0 <= i < es.len() ==> decode_utf8(#[trigger] raws_of(es)[i].1) == es[i].0@,
{
    let raws = raws_of(es);
    assert forall|i: int| 0 <= i < es.len() implies hash_writable(#[trigger] es[i]) && raw_well_formed(raws[i])
        && spec_hex_encode(raws[i].2) == es[i].1.spec_hash() && decode_utf8(raws[i].1) == es[i].0@ by {
        lemma_lower_hash_hex_roundtrip(es[i].1.spec_hash());
        vstd::utf8::encode_utf8_valid_utf8(es[i].0@);
        vstd::utf8::encode_utf8_decode_utf8(es[i].0@);
    }
}

proof fn lemma_roundtrip_parse(raws: Seq<RawEntry>)
    requires
        raws.len() <= MAX_TREE_ENTRIES,
        forall|i: int| 0 <= i < raws.len() ==> raw_well_formed(#[trigger] raws[i]),
    ensures
        parse_tree_raw(tree_header() + tree_payload(raws)) == Ok::<Seq<RawEntry>, CodecError>(raws),
{
    let d = tree_header() + tree_payload(raws);
    let n = (raws.len() % 4294967296) as u32;
    lemma_le32_roundtrip(n);
    assert(d.take(4) =~= seq![83u8, 68u8, 84u8, 82u8]);
    assert(d.skip(8) =~= le32(n) + encode_entries(raws));
    assert(from_le32(d.skip(8)) == from_le32(le32(n)));
    assert(d.skip(12) =~= encode_entries(raws) + Seq::<u8>::empty());
    lemma_parse_encoded_entries(raws, Seq::<u8>::empty());
}

proof fn lemma_roundtrip_valid(t: Tree)
    requires
        t.spec_valid(),
        forall|i: int| 0 <= i < t.entries@.len() ==> decode_utf8(#[trigger] raws_of(t.entries@)[i].1) == t.entries@[i].0@,
    ensures
        raws_valid(raws_of(t.entries@)),
{
    let es = t.entries@;
    let raws = raws_of(es);
    assert forall|i: int, j: int| 0 <= i < j < raws.len() implies decode_utf8(#[trigger] raws[i].1)
        != decode_utf8(#[trigger] raws[j].1) by {
        assert(es[i].0@ != es[j].0@);
    }
    assert forall|i: int| 0 <= i < raws.len() implies !crate::objects::has_separator(
        decode_utf8(#[trigger] raws[i].1),
    ) by {
        assert(!crate::objects::has_separator(es[i].0@));
    }
    assert forall|i: int| 1 <= i < raws.len() implies lex_le(raws[i - 1].1, #[trigger] raws[i].1) by {
        assert(crate::order::str_le(es[i - 1].0@, es[i].0@));
    }
}

/// Round trip of the binary tree format: a valid tree whose names are 1 to
/// 4096 bytes long, whose hashes are 64 lowercase hex digits and which has at
/// most `MAX_TREE_ENTRIES` entries is written without error, and reading the
/// written bytes back gives an equally valid tree whose entries match the
/// written ones in name, kind and hash (blob sizes are not stored and read as 0).
pub proof fn lemma_tree_binary_roundtrip(t: Tree)
    requires
        t.spec_valid(),
        t.entries@.len() <= MAX_TREE_ENTRIES,
        roundtrip_ready(t.entries@),
    ensures
        forall|i: int| 0 <= i < t.entries@.len() ==> hash_writable(#[trigger] t.entries@[i]),
        parse_tree_raw(tree_header() + tree_payload(raws_of(t.entries@))) == Ok::<
            Seq<RawEntry>,
            CodecError,
        >(raws_of(t.entries@)),
        raws_valid(raws_of(t.entries@)),
        forall|e: (String, TreeEntry), i: int|
            0 <= i < t.entries@.len() && #[trigger] entry_matches_raw(e, raws_of(t.entries@)[i])
                ==> same_up_to_size(e, t.entries@[i]),
{
    let es = t.entries@;
    lemma_roundtrip_entries(es);
    lemma_roundtrip_parse(raws_of(es));
    lemma_roundtrip_valid(t);
    assert forall|e: (String, TreeEntry), i: int|
        0 <= i < es.len() && #[trigger] entry_matches_raw(e, raws_of(es)[i]) implies same_up_to_size(e, es[i]) by {
        assert(decode_utf8(raws_of(es)[i].1) == es[i].0@);
        assert(spec_hex_encode(raws_of(es)[i].2) == es[i].1.spec_hash());
    }
}

} // verus!
