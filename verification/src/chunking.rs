//! Splitting file content into chunks: fixed-size and content-defined
//! (FastCDC) chunking, with each chunk's SHA-256 hash.

use vstd::prelude::*;
use vstd::string::*;
use crate::hashing::{sha256_hex, spec_hex_encode, spec_sha256};
use crate::objects::{lemma_sum_sizes_step, sum_sizes, Blob, ChunkEntry};

verus! {

/// A piece of file content with its hash and its offset in the file.
#[derive(Debug)]
pub struct Chunk {
    pub data: Vec<u8>,
    pub hash: String,
    pub offset: u64,
}

/// The hash a chunk with these bytes must carry.
pub open spec fn chunk_hash(data: Seq<u8>) -> Seq<char> {
    spec_hex_encode(spec_sha256(data))
}

impl Chunk {
    /// Makes a chunk, hashing its bytes.
    pub fn new(data: Vec<u8>, offset: u64) -> (c: Self)
        ensures
            c.data@ == data@,
            c.offset == offset,
            c.hash@ == chunk_hash(data@),
    {
        let hash = sha256_hex(data.as_slice());
        Chunk { data, hash, offset }
    }

    /// The chunk's hash matches its bytes.
    pub open spec fn spec_intact(&self) -> bool {
        self.hash@ == chunk_hash(self.data@)
    }

    /// Checks that the hash matches the bytes.
    pub fn verify(&self) -> (r: Result<(), ChunkingError>)
        ensures
            r is Ok <==> self.spec_intact(),
            r matches Err(e) ==> (e matches ChunkingError::Other(m) && m@ == "Chunk integrity violation: expected hash "@
                + self.hash@ + ", got "@ + chunk_hash(self.data@)),
    {
        let computed = sha256_hex(self.data.as_slice());
        if computed != self.hash {
            let mut msg = String::from_str("Chunk integrity violation: expected hash ");
            proof {
                reveal_strlit("Chunk integrity violation: expected hash ");
                reveal_strlit(", got ");
            }
            msg.append(self.hash.as_str());
            msg.append(", got ");
            msg.append(computed.as_str());
            return Err(ChunkingError::Other(msg));
        }
        Ok(())
    }
}

#[verifier::external_type_specification]
#[verifier::external_body]
pub struct ExIoError(std::io::Error);

/// Why chunking fails.
#[derive(Debug)]
pub enum ChunkingError {
    Io(std::io::Error),
    Other(String),
}

/// The concatenation of the chunks' bytes.
pub open spec fn concat_chunks(cs: Seq<Chunk>) -> Seq<u8>
    decreases cs.len(),
{
    if cs.len() == 0 {
        Seq::empty()
    } else {
        concat_chunks(cs.drop_last()) + cs.last().data@
    }
}

/// Chunks that tile `data`: their bytes, in order, are `data`; each starts
/// where the previous one ends, the first at 0; none is empty; each hash
/// matches its bytes.
pub open spec fn chunks_cover(cs: Seq<Chunk>, data: Seq<u8>) -> bool {
    &&& concat_chunks(cs) == data
    &&& forall|i: int| 0 <= i < cs.len() ==> #[trigger] cs[i].offset == concat_chunks(cs.take(i)).len()
    &&& forall|i: int| 0 <= i < cs.len() ==> (#[trigger] cs[i]).data@.len() > 0
    &&& forall|i: int| 0 <= i < cs.len() ==> (#[trigger] cs[i]).spec_intact()
}

pub proof fn lemma_concat_chunks_push(cs: Seq<Chunk>, c: Chunk)
    ensures
        concat_chunks(cs.push(c)) == concat_chunks(cs) + c.data@,
{
    assert(cs.push(c).drop_last() =~= cs);
}

/// Something that splits bytes into chunks.
pub trait Chunker {
    /// The inputs this chunker handles.
    spec fn accepts(&self, data: Seq<u8>) -> bool;

    /// Splits `data` into chunks that tile it.
    fn chunk(&self, data: &[u8]) -> (r: Result<Vec<Chunk>, ChunkingError>)
        requires
            self.accepts(data@),
        ensures
            r matches Ok(cs) && chunks_cover(cs@, data@),
    ;
}

/// Splits data into pieces of `size` bytes (the last may be shorter).
pub struct FixedSizeChunker {
    pub size: usize,
}

impl FixedSizeChunker {
    pub fn new(size: usize) -> (c: Self)
        ensures
            c.size == size,
    {
        FixedSizeChunker { size }
    }

    /// Every chunk but the last has exactly `size` bytes; the last at most.
    pub open spec fn sized(&self, cs: Seq<Chunk>) -> bool {
        &&& forall|i: int| 0 <= i < cs.len() - 1 ==> (#[trigger] cs[i]).data@.len() == self.size
        &&& cs.len() > 0 ==> cs.last().data@.len() <= self.size
    }

    /// Splits into pieces of `size` bytes.
    pub fn chunk_fixed(&self, data: &[u8]) -> (r: Vec<Chunk>)
        requires
            self.size > 0,
        ensures
            chunks_cover(r@, data@),
            self.sized(r@),
    {
        let n = data.len();
        let mut chunks: Vec<Chunk> = Vec::new();
        let mut pos: usize = 0;
        while pos < n
            invariant
                n == data@.len(),
                self.size > 0,
                pos <= n,
                concat_chunks(chunks@) == data@.take(pos as int),
                forall|i: int| 0 <= i < chunks@.len() ==> #[trigger] chunks@[i].offset == concat_chunks(chunks@.take(i)).len(),
                forall|i: int| 0 <= i < chunks@.len() ==> (#[trigger] chunks@[i]).data@.len() > 0,
                forall|i: int| 0 <= i < chunks@.len() ==> (#[trigger] chunks@[i]).spec_intact(),
                forall|i: int| 0 <= i < chunks@.len() ==> (#[trigger] chunks@[i]).data@.len() == self.size,
            decreases n - pos,
        {
            let end = if n - pos >= self.size { pos + self.size } else { n };
            let mut piece: Vec<u8> = Vec::new();
            let mut k: usize = pos;
            while k < end
                invariant
                    pos <= k <= end <= n,
                    n == data@.len(),
                    piece@ =~= data@.subrange(pos as int, k as int),
                decreases end - k,
            {
                piece.push(data[k]);
                k = k + 1;
            }
            let c = Chunk::new(piece, pos as u64);
            let ghost before = chunks@;
            chunks.push(c);
            proof {
                lemma_concat_chunks_push(before, c);
                assert(data@.take(end as int) =~= data@.take(pos as int) + data@.subrange(pos as int, end as int));
                assert(chunks@.take(before.len() as int) =~= before);
                assert forall|i: int| 0 <= i < chunks@.len() implies #[trigger] chunks@[i].offset == concat_chunks(
                    chunks@.take(i),
                ).len() by {
                    if i < before.len() {
                        assert(chunks@.take(i) =~= before.take(i));
                    }
                }
            }
            if end < n {
                assert(c.data@.len() == self.size);
            } else {
                pos = end;
                assert(data@.take(n as int) =~= data@);
                return chunks;
            }
            pos = end;
        }
        assert(data@.take(n as int) =~= data@);
        chunks
    }
}

impl Chunker for FixedSizeChunker {
    open spec fn accepts(&self, data: Seq<u8>) -> bool {
        self.size > 0
    }

    fn chunk(&self, data: &[u8]) -> (r: Result<Vec<Chunk>, ChunkingError>)
        ensures
            r matches Ok(cs) && self.sized(cs@),
    {
        Ok(self.chunk_fixed(data))
    }
}

/// Cut points that tile `len` bytes: each (offset, length) pair starts where
/// the previous one ends, the first at 0, the last ends at `len`, and every
/// length is between 1 and `max`.
pub open spec fn cuts_tile(cuts: Seq<(usize, usize)>, len: int, max: int) -> bool {
    &&& cuts.len() > 0 ==> cuts[0].0 == 0
    &&& forall|i: int| 1 <= i < cuts.len() ==> #[trigger] cuts[i].0 == cuts[i - 1].0 + cuts[i - 1].1
    &&& cuts.len() > 0 ==> cuts.last().0 + cuts.last().1 == len
    &&& (len == 0 <==> cuts.len() == 0)
    &&& forall|i: int| 0 <= i < cuts.len() ==> 1 <= (#[trigger] cuts[i]).1 <= max
}

/// Every cut but the last is at least `min` long.
#[verifier::opaque]
pub open spec fn cuts_respect_min(cuts: Seq<(usize, usize)>, min: int) -> bool {
    forall|i: int| 0 <= i < cuts.len() - 1 ==> (#[trigger] cuts[i]).1 >= min
}

/// The (offset, length) cut points that FastCDC (2020 variant, normalization
/// level 1, no seed) finds in `data` with the given size parameters.
pub uninterp spec fn spec_fastcdc_cuts(data: Seq<u8>, min_size: u32, avg_size: u32, max_size: u32) -> Seq<(usize, usize)>;

/// Whether these chunk size parameters are ones the `fastcdc` crate accepts
/// (each within its bounds) and chunks by as documented: minimum below
/// average below maximum. (With an average above the maximum its cut search
/// reads past the data it is given.)
pub open spec fn fastcdc_params_ok(min_size: int, avg_size: int, max_size: int) -> bool {
    &&& min_size < avg_size < max_size
    &&& 64 <= min_size <= 1048576
    &&& 256 <= avg_size <= 4194304
    &&& 1024 <= max_size <= 16777216
}

/// Runs `fastcdc::v2020::FastCDC` over `data` and collects each chunk's
/// offset and length. Trusted: the cut points are the named ones for these
/// arguments, and they tile the data with lengths between 1 and `max_size`
/// (the iterator starts at offset 0, advances by each chunk's length, never
/// yields an empty chunk, caps lengths at `max_size` and stops at the end).
/// With an even `min_size`, every chunk but the last is at least `min_size`
/// long (`cut_gear` returns the whole rest only when it is at most
/// `min_size`, and otherwise a cut at or after `min_size`).
#[verifier::external_body]
fn fastcdc_cuts(data: &[u8], min_size: u32, avg_size: u32, max_size: u32) -> (cuts: Vec<(usize, usize)>)
    requires
        fastcdc_params_ok(min_size as int, avg_size as int, max_size as int),
    ensures
        cuts@ == spec_fastcdc_cuts(data@, min_size, avg_size, max_size),
        cuts_tile(cuts@, data@.len() as int, max_size as int),
        min_size % 2 == 0 ==> cuts_respect_min(cuts@, min_size as int),
{
    fastcdc::v2020::FastCDC::new(data, min_size, avg_size, max_size).map(|c| (c.offset, c.length)).collect()
}

/// FastCDC chunker with fixed size parameters. The defaults (16 KiB minimum,
/// 64 KiB average, 1 MiB maximum) must stay the same on every machine so that
/// the same content always gives the same chunks and hashes.
pub struct FastCDC {
    min_size: usize,
    avg_size: usize,
    max_size: usize,
}

/// Default minimum chunk size: 16 KiB.
pub const DEFAULT_MIN_SIZE: usize = 16384;
/// Default average chunk size: 64 KiB.
pub const DEFAULT_AVG_SIZE: usize = 65536;
/// Default maximum chunk size: 1 MiB.
pub const DEFAULT_MAX_SIZE: usize = 1048576;

/// The chunks made from cut points: the bytes at each cut, hashed.
pub open spec fn chunks_from_cuts(cs: Seq<Chunk>, data: Seq<u8>, cuts: Seq<(usize, usize)>) -> bool {
    &&& cs.len() == cuts.len()
    &&& forall|i: int|
        0 <= i < cs.len() ==> (#[trigger] cs[i]).offset == cuts[i].0 && cs[i].data@ == data.subrange(
            cuts[i].0 as int,
            cuts[i].0 + cuts[i].1,
        ) && cs[i].spec_intact()
}

impl FastCDC {
    /// The size parameters: (minimum, average, maximum).
    pub closed spec fn spec_params(&self) -> (usize, usize, usize) {
        (self.min_size, self.avg_size, self.max_size)
    }

    /// The default parameters: 16 KiB, 64 KiB, 1 MiB.
    pub fn new() -> (c: Self)
        ensures
            c.spec_params() == (DEFAULT_MIN_SIZE, DEFAULT_AVG_SIZE, DEFAULT_MAX_SIZE),
    {
        FastCDC { min_size: DEFAULT_MIN_SIZE, avg_size: DEFAULT_AVG_SIZE, max_size: DEFAULT_MAX_SIZE }
    }

    /// Custom parameters; the minimum must be below the average, the average
    /// below the maximum. Other parameters give other chunk boundaries and so
    /// other blob hashes.
    pub fn with_sizes(min_size: usize, avg_size: usize, max_size: usize) -> (c: Self)
        requires
            min_size < avg_size,
            avg_size < max_size,
        ensures
            c.spec_params() == (min_size, avg_size, max_size),
    {
        FastCDC { min_size, avg_size, max_size }
    }

    /// The parameters: (minimum, average, maximum).
    pub fn params(&self) -> (r: (usize, usize, usize))
        ensures
            r == self.spec_params(),
    {
        (self.min_size, self.avg_size, self.max_size)
    }

    /// The chunks FastCDC makes of `data` with these parameters.
    pub open spec fn spec_chunks_of(&self, cs: Seq<Chunk>, data: Seq<u8>) -> bool {
        chunks_from_cuts(
            cs,
            data,
            spec_fastcdc_cuts(
                data,
                self.spec_params().0 as u32,
                self.spec_params().1 as u32,
                self.spec_params().2 as u32,
            ),
        )
    }

    /// Splits `data` at the cut points FastCDC finds; empty data gives no chunks.
    pub fn chunk_cdc(&self, data: &[u8]) -> (r: Vec<Chunk>)
        requires
            data@.len() > 0 ==> fastcdc_params_ok(
                self.spec_params().0 as int,
                self.spec_params().1 as int,
                self.spec_params().2 as int,
            ),
        ensures
            chunks_cover(r@, data@),
            data@.len() > 0 ==> self.spec_chunks_of(r@, data@),
            data@.len() == 0 ==> r@.len() == 0,
            forall|i: int| 0 <= i < r@.len() ==> (#[trigger] r@[i]).data@.len() <= self.spec_params().2,
            self.spec_params().0 % 2 == 0 ==> forall|i: int|
                0 <= i < r@.len() - 1 ==> (#[trigger] r@[i]).data@.len() >= self.spec_params().0,
    {
        if data.len() == 0 {
            let r: Vec<Chunk> = Vec::new();
            assert(concat_chunks(r@) =~= data@);
            return r;
        }
        let cuts = fastcdc_cuts(data, self.min_size as u32, self.avg_size as u32, self.max_size as u32);
        let mut chunks: Vec<Chunk> = Vec::new();
        let mut i: usize = 0;
        let dlen = data.len();
        while i < cuts.len()
            invariant
                dlen == data@.len(),
                cuts_tile(cuts@, data@.len() as int, self.max_size as int),
                i <= cuts@.len(),
                chunks@.len() == i,
                concat_chunks(chunks@) == data@.take(if i > 0 { cuts@[i - 1].0 + cuts@[i - 1].1 } else { 0 }),
                chunks_from_cuts(chunks@, data@, cuts@.take(i as int)),
                forall|k: int| 0 <= k < i ==> #[trigger] chunks@[k].offset == concat_chunks(chunks@.take(k)).len(),
            decreases cuts@.len() - i,
        {
            let (offset, length) = cuts[i];
            proof {
                lemma_cut_in_bounds(cuts@, data@.len() as int, self.max_size as int, i as int);
            }
            let piece = copy_range(data, offset, offset + length);
            let c = Chunk::new(piece, offset as u64);
            proof {
                if i > 0 {
                    assert(cuts@[i as int].0 == cuts@[i - 1].0 + cuts@[i - 1].1);
                }
                lemma_extend_tiling(chunks@, c, data@, offset as int, length as int);
                assert(cuts@.take(i + 1) =~= cuts@.take(i as int).push(cuts@[i as int]));
            }
            chunks.push(c);
            i = i + 1;
        }
        proof {
            if cuts@.len() > 0 {
                assert(data@.take(data@.len() as int) =~= data@);
            }
            assert(cuts@.take(cuts@.len() as int) =~= cuts@);
            lemma_cuts_give_cover(chunks@, data@, cuts@, self.max_size as int);
            if self.min_size % 2 == 0 {
                assert(self.min_size as u32 == self.min_size);
                assert(cuts_respect_min(cuts@, self.min_size as int));
                reveal(cuts_respect_min);
            }
        }
        chunks
    }
}

/// Chunks cut at tiling cut points tile the data, each within the maximum.
pub proof fn lemma_cuts_give_cover(cs: Seq<Chunk>, data: Seq<u8>, cuts: Seq<(usize, usize)>, max: int)
    requires
        chunks_from_cuts(cs, data, cuts),
        cuts_tile(cuts, data.len() as int, max),
        concat_chunks(cs) == data,
        forall|k: int| 0 <= k < cs.len() ==> #[trigger] cs[k].offset == concat_chunks(cs.take(k)).len(),
    ensures
        chunks_cover(cs, data),
        forall|i: int| 0 <= i < cs.len() ==> (#[trigger] cs[i]).data@.len() <= max,
        forall|i: int| 0 <= i < cs.len() ==> (#[trigger] cs[i]).data@.len() == cuts[i].1,
{
    assert forall|i: int| 0 <= i < cs.len() implies (#[trigger] cs[i]).data@.len() == cuts[i].1 && cs[i].spec_intact() by {
        lemma_cut_in_bounds(cuts, data.len() as int, max, i);
        assert(1 <= cuts[i].1);
    }
}

/// Copies `data[start..end]`.
pub fn copy_range(data: &[u8], start: usize, end: usize) -> (r: Vec<u8>)
    requires
        start <= end <= data@.len(),
    ensures
        r@ == data@.subrange(start as int, end as int),
{
    let mut piece: Vec<u8> = Vec::with_capacity(end - start);
    let mut k: usize = start;
    while k < end
        invariant
            start <= k <= end <= data@.len(),
            piece@ =~= data@.subrange(start as int, k as int),
        decreases end - k,
    {
        piece.push(data[k]);
        k = k + 1;
    }
    piece
}

/// Appending the chunk for the next piece of `data` keeps the chunks tiling
/// a prefix of it.
pub proof fn lemma_extend_tiling(cs: Seq<Chunk>, c: Chunk, data: Seq<u8>, offset: int, length: int)
    requires
        concat_chunks(cs) == data.take(offset),
        0 <= offset,
        0 <= length,
        offset + length <= data.len(),
        c.data@ == data.subrange(offset, offset + length),
        c.offset == offset,
        forall|k: int| 0 <= k < cs.len() ==> #[trigger] cs[k].offset == concat_chunks(cs.take(k)).len(),
    ensures
        concat_chunks(cs.push(c)) == data.take(offset + length),
        forall|k: int| 0 <= k < cs.len() + 1 ==> #[trigger] cs.push(c)[k].offset == concat_chunks(
            cs.push(c).take(k),
        ).len(),
{
    lemma_concat_chunks_push(cs, c);
    assert(data.take(offset + length) =~= data.take(offset) + data.subrange(offset, offset + length));
    let t = cs.push(c);
    assert(t.take(cs.len() as int) =~= cs);
    assert(data.take(offset).len() == offset);
    assert forall|k: int| 0 <= k < cs.len() + 1 implies #[trigger] t[k].offset == concat_chunks(t.take(k)).len() by {
        if k < cs.len() {
            assert(t.take(k) =~= cs.take(k));
            assert(t[k] == cs[k]);
        } else {
            assert(t.take(k) =~= cs);
            assert(t[k] == c);
        }
    }
}

/// Each cut lies inside the data.
pub proof fn lemma_cut_in_bounds(cuts: Seq<(usize, usize)>, len: int, max: int, i: int)
    requires
        cuts_tile(cuts, len, max),
        0 <= i < cuts.len(),
    ensures
        cuts[i].0 + cuts[i].1 <= len,
    decreases cuts.len() - i,
{
    if i < cuts.len() - 1 {
        lemma_cut_in_bounds(cuts, len, max, i + 1);
        assert(cuts[i + 1].0 == cuts[i].0 + cuts[i].1);
    }
}

impl Default for FastCDC {
    fn default() -> (c: Self)
        ensures
            c.spec_params() == (DEFAULT_MIN_SIZE, DEFAULT_AVG_SIZE, DEFAULT_MAX_SIZE),
    {
        FastCDC::new()
    }
}

impl Chunker for FastCDC {
    open spec fn accepts(&self, data: Seq<u8>) -> bool {
        data.len() > 0 ==> fastcdc_params_ok(
            self.spec_params().0 as int,
            self.spec_params().1 as int,
            self.spec_params().2 as int,
        )
    }

    fn chunk(&self, data: &[u8]) -> (r: Result<Vec<Chunk>, ChunkingError>)
        ensures
            r matches Ok(cs) && {
                &&& data@.len() > 0 ==> self.spec_chunks_of(cs@, data@)
                &&& data@.len() == 0 ==> cs@.len() == 0
                &&& forall|i: int| 0 <= i < cs@.len() ==> (#[trigger] cs@[i]).data@.len() <= self.spec_params().2
                &&& self.spec_params().0 % 2 == 0 ==> forall|i: int|
                    0 <= i < cs@.len() - 1 ==> (#[trigger] cs@[i]).data@.len() >= self.spec_params().0
            },
    {
        Ok(self.chunk_cdc(data))
    }
}

/// Pieces (offset, bytes) that follow each other from offset 0, none empty
/// and none longer than `max`.
pub open spec fn pieces_contiguous(pieces: Seq<(u64, Vec<u8>)>, max: int) -> bool {
    &&& pieces.len() > 0 ==> pieces[0].0 == 0
    &&& forall|i: int| 1 <= i < pieces.len() ==> #[trigger] pieces[i].0 == pieces[i - 1].0 + pieces[i - 1].1@.len()
    &&& forall|i: int| 0 <= i < pieces.len() ==> 1 <= (#[trigger] pieces[i]).1@.len() <= max
}

/// Every piece but the last is at least `min` bytes long.
#[verifier::opaque]
pub open spec fn pieces_respect_min(pieces: Seq<(u64, Vec<u8>)>, min: int) -> bool {
    forall|i: int| 0 <= i < pieces.len() - 1 ==> (#[trigger] pieces[i]).1@.len() >= min
}

/// Streams `reader` through `fastcdc::v2020::StreamCDC` with the given
/// sizes and collects each chunk's offset and bytes; a chunker error becomes an
/// I/O error of kind `Other` carrying the error's text. Trusted: the pieces
/// follow each other from offset 0, none empty and none longer than
/// `max_size` (offsets count the bytes drained before, each piece is the
/// drained cut, cuts are capped at the maximum), and with an even
/// `min_size` every piece but the last is at least `min_size` long (the
/// buffer is refilled to `max_size` bytes before each cut unless the reader
/// has ended, and `cut_gear` cuts at or after the even minimum size unless
/// the rest is that short). The cut points are those `FastCDC` finds in the
/// bytes read, with the same sizes: both construct with normalization level
/// 1 and seed 0 and call `cut_gear` at each cut, `FastCDC` on the whole rest
/// and `StreamCDC` on a buffer of the next `max_size` bytes (or the rest, if
/// shorter), and `cut_gear` looks at no more than `max_size` bytes. Which
/// bytes the reader yields is not stated (`reads_as` speaks of them as the
/// bytes of this function's outcomes).
#[verifier::external_body]
fn stream_cdc_pieces<R: std::io::Read>(reader: R, min_size: u32, avg_size: u32, max_size: u32) -> (r: Result<
    Vec<(u64, Vec<u8>)>,
    std::io::Error,
>)
    requires
        fastcdc_params_ok(min_size as int, avg_size as int, max_size as int),
    ensures
        r matches Ok(p) ==> pieces_contiguous(p@, max_size as int),
        r matches Ok(p) ==> (min_size % 2 == 0 ==> pieces_respect_min(p@, min_size as int)),
        r matches Ok(p) ==> (pieces_bytes(p@).len() <= usize::MAX ==> pieces_cuts(p@) == spec_fastcdc_cuts(
            pieces_bytes(p@),
            min_size,
            avg_size,
            max_size,
        )),
{
    fastcdc::v2020::StreamCDC::new(reader, min_size, avg_size, max_size)
        .map(|res| res.map(|cd| (cd.offset, cd.data)).map_err(|e| std::io::Error::new(std::io::ErrorKind::Other, e.to_string())))
        .collect()
}

/// Chunks whose offsets follow each other from 0.
pub open spec fn offsets_follow(cs: Seq<Chunk>) -> bool {
    &&& cs.len() > 0 ==> cs[0].offset == 0
    &&& forall|i: int| 1 <= i < cs.len() ==> #[trigger] cs[i].offset == cs[i - 1].offset + cs[i - 1].data@.len()
}

/// The bytes of the pieces, in order.
pub open spec fn pieces_bytes(p: Seq<(u64, Vec<u8>)>) -> Seq<u8>
    decreases p.len(),
{
    if p.len() == 0 {
        Seq::empty()
    } else {
        pieces_bytes(p.drop_last()) + p.last().1@
    }
}

/// The cut points (offset, length) that pieces stand for.
pub open spec fn pieces_cuts(p: Seq<(u64, Vec<u8>)>) -> Seq<(usize, usize)> {
    p.map_values(|x: (u64, Vec<u8>)| (x.0 as usize, x.1@.len() as usize))
}

/// Chunks with the bytes of the pieces, in order, hold the pieces' bytes.
proof fn lemma_chunks_bytes_of_pieces(cs: Seq<Chunk>, p: Seq<(u64, Vec<u8>)>)
    requires
        cs.len() == p.len(),
        forall|k: int| 0 <= k < cs.len() ==> (#[trigger] cs[k]).data@ == p[k].1@,
    ensures
        concat_chunks(cs) == pieces_bytes(p),
    decreases cs.len(),
{
    if cs.len() > 0 {
        lemma_chunks_bytes_of_pieces(cs.drop_last(), p.drop_last());
        assert(cs.last().data@ == p.last().1@);
    }
}

/// The bytes of the first `j` chunks are a prefix of the bytes of all.
proof fn lemma_concat_take_prefix(cs: Seq<Chunk>, j: int)
    requires
        0 <= j <= cs.len(),
    ensures
        concat_chunks(cs.take(j)).len() <= concat_chunks(cs).len(),
        concat_chunks(cs).take(concat_chunks(cs.take(j)).len() as int) == concat_chunks(cs.take(j)),
    decreases cs.len(),
{
    if j == cs.len() {
        assert(cs.take(j) =~= cs);
        assert(concat_chunks(cs).take(concat_chunks(cs).len() as int) =~= concat_chunks(cs));
    } else {
        let d = cs.drop_last();
        lemma_concat_take_prefix(d, j);
        assert(d.take(j) =~= cs.take(j));
        let l = concat_chunks(cs.take(j)).len() as int;
        assert(concat_chunks(cs) == concat_chunks(d) + cs.last().data@);
        assert(concat_chunks(cs).take(l) =~= concat_chunks(d).take(l));
    }
}

/// Chunks whose offsets follow each other from 0 start where the bytes of
/// the chunks before them end.
proof fn lemma_follow_offsets(cs: Seq<Chunk>)
    requires
        offsets_follow(cs),
    ensures
        forall|i: int| 0 <= i < cs.len() ==> #[trigger] cs[i].offset == concat_chunks(cs.take(i)).len(),
    decreases cs.len(),
{
    if cs.len() > 0 {
        let d = cs.drop_last();
        assert(offsets_follow(d)) by {
            assert forall|i: int| 1 <= i < d.len() implies #[trigger] d[i].offset == d[i - 1].offset + d[i - 1].data@.len() by {
                assert(d[i] == cs[i] && d[i - 1] == cs[i - 1]);
            }
        }
        lemma_follow_offsets(d);
        assert forall|i: int| 0 <= i < cs.len() implies #[trigger] cs[i].offset == concat_chunks(cs.take(i)).len() by {
            if i < d.len() {
                assert(cs.take(i) =~= d.take(i));
                assert(cs[i] == d[i]);
            } else if i > 0 {
                assert(cs.take(i) =~= d);
                assert(d.take(i - 1) =~= cs.take(i - 1));
                assert(cs.take(i - 1).push(cs[i - 1]) =~= cs.take(i));
                lemma_concat_chunks_push(cs.take(i - 1), cs[i - 1]);
                assert(d[i - 1] == cs[i - 1]);
            } else {
                assert(cs.take(0) =~= Seq::<Chunk>::empty());
            }
        }
    }
}

/// Chunks whose offsets follow each other from 0 are the chunks at their
/// own cut points in the concatenation of their bytes.
pub proof fn lemma_following_chunks_at_cuts(cs: Seq<Chunk>)
    requires
        offsets_follow(cs),
        concat_chunks(cs).len() <= usize::MAX,
        forall|i: int| 0 <= i < cs.len() ==> (#[trigger] cs[i]).spec_intact(),
    ensures
        chunks_from_cuts(
            cs,
            concat_chunks(cs),
            cs.map_values(|c: Chunk| (c.offset as usize, c.data@.len() as usize)),
        ),
{
    lemma_follow_offsets(cs);
    let all = concat_chunks(cs);
    let cuts = cs.map_values(|c: Chunk| (c.offset as usize, c.data@.len() as usize));
    assert forall|i: int| 0 <= i < cs.len() implies (#[trigger] cs[i]).offset == cuts[i].0 && cs[i].data@
        == all.subrange(cuts[i].0 as int, cuts[i].0 + cuts[i].1) && cs[i].spec_intact() by {
        lemma_concat_take_prefix(cs, i + 1);
        assert(cs.take(i + 1) =~= cs.take(i).push(cs[i]));
        lemma_concat_chunks_push(cs.take(i), cs[i]);
        let a = concat_chunks(cs.take(i)).len() as int;
        let b = concat_chunks(cs.take(i + 1)).len() as int;
        assert(b == a + cs[i].data@.len());
        assert(cs[i].offset == a);
        assert(all.take(b) == concat_chunks(cs.take(i)) + cs[i].data@);
        assert(all.subrange(a, b) =~= all.take(b).subrange(a, b));
        assert(all.take(b).subrange(a, b) =~= cs[i].data@);
    }
}

/// The chunks for pieces (offset, bytes) that a chunker cut: one chunk per
/// piece, in order, with its offset and bytes and the hash of those bytes.
pub fn chunks_from_pieces(pieces: Vec<(u64, Vec<u8>)>) -> (cs: Vec<Chunk>)
    ensures
        cs@.len() == pieces@.len(),
        forall|k: int|
            0 <= k < cs@.len() ==> (#[trigger] cs@[k]).offset == pieces@[k].0 && cs@[k].data@ == pieces@[k].1@
                && cs@[k].spec_intact(),
{
    let mut pieces = pieces;
    let ghost all = pieces@;
    let mut chunks: Vec<Chunk> = Vec::new();
    let n = pieces.len();
    let mut i: usize = 0;
    while i < n
        invariant
            n == all.len(),
            i <= n,
            pieces@ == all.subrange(i as int, n as int),
            chunks@.len() == i,
            forall|k: int| 0 <= k < i ==> (#[trigger] chunks@[k]).offset == all[k].0 && chunks@[k].data@
                == all[k].1@ && chunks@[k].spec_intact(),
        decreases n - i,
    {
        let (offset, data) = pieces.remove(0);
        chunks.push(Chunk::new(data, offset));
        i = i + 1;
        assert(pieces@ =~= all.subrange(i as int, n as int));
    }
    chunks
}

/// `out` is an outcome of streaming `reader` through StreamCDC with the
/// default sizes (16 KiB, 64 KiB, 1 MiB): on success, the pieces hold every
/// byte the reader yielded, in order, until it reported its end; on failure,
/// the error reading gave.
pub closed spec fn default_stream_outcome<R: std::io::Read>(
    reader: R,
    out: Result<Vec<(u64, Vec<u8>)>, std::io::Error>,
) -> bool {
    call_ensures(stream_cdc_pieces::<R>, (reader, 16384u32, 65536u32, 1048576u32), out)
}

/// `data` is what reading `reader` to its end yields: the bytes of an
/// outcome of streaming it through StreamCDC with the default sizes.
pub open spec fn reads_as<R: std::io::Read>(reader: R, data: Seq<u8>) -> bool {
    exists|p: Vec<(u64, Vec<u8>)>| #[trigger] default_stream_outcome(reader, Ok(p)) && pieces_bytes(p@) == data
}

/// Reading `reader` fails with `e`: an outcome of streaming it through
/// StreamCDC with the default sizes.
pub open spec fn read_fails_with<R: std::io::Read>(reader: R, e: std::io::Error) -> bool {
    default_stream_outcome(reader, Err(e))
}

/// The chunks of a read hold the whole input: when reading `reader` can
/// only yield `data`, chunks whose bytes are what it yielded are `data`
/// itself, so there is at least one chunk when `data` is not empty and
/// their lengths add up to the length of `data`.
pub proof fn lemma_chunks_hold_input<R: std::io::Read>(reader: R, data: Seq<u8>, cs: Seq<Chunk>)
    requires
        forall|d: Seq<u8>| #[trigger] reads_as(reader, d) ==> d == data,
        reads_as(reader, concat_chunks(cs)),
    ensures
        concat_chunks(cs) == data,
        data.len() > 0 ==> cs.len() > 0,
        concat_chunks(cs).len() == data.len(),
{
}

/// Chunks content read from `reader` with the default FastCDC parameters.
/// The cutting reads at most one maximum-size chunk ahead, but every chunk
/// is kept and returned, so the whole input is held in memory. Fails
/// exactly when reading fails, with that error. The chunks' bytes, in
/// order, are the bytes the reader yielded, and the chunks are the ones
/// FastCDC with the default sizes cuts from them.
pub fn stream_chunk_cdc<R: std::io::Read>(reader: R) -> (r: Result<Vec<Chunk>, std::io::Error>)
    ensures
        r matches Err(e) ==> read_fails_with(reader, e),
        r matches Ok(cs) ==> {
            &&& reads_as(reader, concat_chunks(cs@))
            &&& offsets_follow(cs@)
            &&& forall|i: int| 0 <= i < cs@.len() ==> (#[trigger] cs@[i]).spec_intact()
            &&& forall|i: int| 0 <= i < cs@.len() ==> 1 <= (#[trigger] cs@[i]).data@.len() <= DEFAULT_MAX_SIZE
            &&& forall|i: int| 0 <= i < cs@.len() - 1 ==> (#[trigger] cs@[i]).data@.len() >= DEFAULT_MIN_SIZE
            &&& concat_chunks(cs@).len() <= usize::MAX ==> chunks_from_cuts(
                cs@,
                concat_chunks(cs@),
                spec_fastcdc_cuts(concat_chunks(cs@), 16384, 65536, 1048576),
            )
        },
{
    let streamed = stream_cdc_pieces(
        reader,
        DEFAULT_MIN_SIZE as u32,
        DEFAULT_AVG_SIZE as u32,
        DEFAULT_MAX_SIZE as u32,
    );
    let pieces = match streamed {
        Ok(p) => p,
        Err(e) => {
            return Err(e);
        },
    };
    let ghost piece_vec = pieces;
    let ghost all = pieces@;
    let chunks = chunks_from_pieces(pieces);
    assert forall|k: int| 1 <= k < chunks@.len() implies #[trigger] chunks@[k].offset == chunks@[k - 1].offset
        + chunks@[k - 1].data@.len() by {
        assert(all[k].0 == all[k - 1].0 + all[k - 1].1@.len());
    }
    assert forall|k: int| 0 <= k < chunks@.len() implies 1 <= (#[trigger] chunks@[k]).data@.len() <= DEFAULT_MAX_SIZE by {
        assert(1 <= all[k].1@.len() <= DEFAULT_MAX_SIZE);
    }
    assert forall|k: int| 0 <= k < chunks@.len() - 1 implies (#[trigger] chunks@[k]).data@.len() >= DEFAULT_MIN_SIZE by {
        reveal(pieces_respect_min);
        assert(all[k].1@.len() >= DEFAULT_MIN_SIZE);
    }
    proof {
        lemma_chunks_bytes_of_pieces(chunks@, all);
        if concat_chunks(chunks@).len() <= usize::MAX {
            lemma_following_chunks_at_cuts(chunks@);
            assert(chunks@.map_values(|c: Chunk| (c.offset as usize, c.data@.len() as usize)) =~= pieces_cuts(all));
        }
        assert(default_stream_outcome(reader, Ok(piece_vec)));
        assert(pieces_bytes(piece_vec@) == concat_chunks(chunks@));
    }
    Ok(chunks)
}

/// Chunking is deterministic: two runs of FastCDC with the same parameters on
/// the same bytes give chunks with the same offsets, bytes and hashes.
pub proof fn lemma_fastcdc_deterministic(c: FastCDC, data: Seq<u8>, r1: Seq<Chunk>, r2: Seq<Chunk>)
    requires
        c.spec_chunks_of(r1, data),
        c.spec_chunks_of(r2, data),
    ensures
        r1.len() == r2.len(),
        forall|i: int|
            0 <= i < r1.len() ==> (#[trigger] r1[i]).offset == r2[i].offset && r1[i].data@ == r2[i].data@
                && r1[i].hash@ == r2[i].hash@,
{
}

impl<'a> From<&'a Chunk> for ChunkEntry {
    /// The entry that records a chunk in a blob: its hash, length and offset.
    fn from(chunk: &'a Chunk) -> (e: Self) {
        ChunkEntry { hash: chunk.hash.clone(), size: chunk.data.len() as u64, offset: chunk.offset }
    }
}

impl<'a> vstd::std_specs::convert::FromSpecImpl<&'a Chunk> for ChunkEntry {
    open spec fn obeys_from_spec() -> bool {
        true
    }

    open spec fn from_spec(chunk: &'a Chunk) -> Self {
        ChunkEntry { hash: chunk.hash, size: chunk.data@.len() as u64, offset: chunk.offset }
    }
}

/// The blob of a file cut into these chunks, in order.
pub fn blob_of_chunks(chunks: &Vec<Chunk>, total_size: u64) -> (b: Blob)
    ensures
        b.total_size == total_size,
        b.chunks@.len() == chunks@.len(),
        forall|i: int| 0 <= i < chunks@.len() ==> {
            &&& (#[trigger] b.chunks@[i]).hash == chunks@[i].hash
            &&& b.chunks@[i].size == chunks@[i].data@.len()
            &&& b.chunks@[i].offset == chunks@[i].offset
        },
{
    let mut entries: Vec<ChunkEntry> = Vec::new();
    let mut i: usize = 0;
    while i < chunks.len()
        invariant
            i <= chunks@.len(),
            entries@.len() == i,
            forall|k: int| 0 <= k < i ==> {
                &&& (#[trigger] entries@[k]).hash == chunks@[k].hash
                &&& entries@[k].size == chunks@[k].data@.len()
                &&& entries@[k].offset == chunks@[k].offset
            },
        decreases chunks@.len() - i,
    {
        let n = chunks[i].data.len();
        assert(n == chunks@[i as int].data@.len());
        entries.push(ChunkEntry::from(&chunks[i]));
        i = i + 1;
    }
    Blob { chunks: entries, total_size }
}

/// Entries recording chunks add up, over any prefix, to the length of those
/// chunks' bytes.
proof fn lemma_entry_sizes(es: Seq<ChunkEntry>, cs: Seq<Chunk>, i: int)
    requires
        es.len() == cs.len(),
        0 <= i <= cs.len(),
        forall|k: int| 0 <= k < cs.len() ==> (#[trigger] es[k]).size == cs[k].data@.len(),
    ensures
        sum_sizes(es.take(i)) == concat_chunks(cs.take(i)).len(),
    decreases i,
{
    if i > 0 {
        lemma_entry_sizes(es, cs, i - 1);
        lemma_sum_sizes_step(es, i - 1);
        assert(cs.take(i) =~= cs.take(i - 1).push(cs[i - 1]));
        lemma_concat_chunks_push(cs.take(i - 1), cs[i - 1]);
    } else {
        assert(es.take(0) =~= Seq::<ChunkEntry>::empty());
        assert(cs.take(0) =~= Seq::<Chunk>::empty());
    }
}

/// Makes the error for input longer than a 64-bit size can count, with
/// `std::io::Error::from(ErrorKind::InvalidData)`. Nothing is stated of it.
#[verifier::external_body]
fn size_overflow_error() -> (e: std::io::Error) {
    std::io::Error::from(std::io::ErrorKind::InvalidData)
}

/// The blob recording chunks that follow each other from offset 0, none
/// empty, with the chunks handed back unchanged. Fails exactly when their
/// total size does not fit in 64 bits.
pub fn blob_from_chunks(chunks: Vec<Chunk>) -> (r: Result<(Blob, Vec<Chunk>), std::io::Error>)
    requires
        offsets_follow(chunks@),
        forall|i: int| 0 <= i < chunks@.len() ==> (#[trigger] chunks@[i]).data@.len() >= 1,
    ensures
        r is Ok <==> concat_chunks(chunks@).len() <= u64::MAX,
        r matches Ok((b, cs)) ==> {
            &&& cs@ == chunks@
            &&& b.spec_valid()
            &&& b.total_size == concat_chunks(cs@).len()
            &&& b.chunks@.len() == cs@.len()
            &&& forall|i: int| 0 <= i < cs@.len() ==> {
                &&& (#[trigger] b.chunks@[i]).hash == cs@[i].hash
                &&& b.chunks@[i].size == cs@[i].data@.len()
                &&& b.chunks@[i].offset == cs@[i].offset
            }
        },
{
    proof {
        lemma_follow_offsets(chunks@);
        lemma_concat_take_prefix(chunks@, chunks@.len() as int);
        assert(chunks@.take(chunks@.len() as int) =~= chunks@);
    }
    let n = chunks.len();
    let total: u64 = if n == 0 {
        assert(chunks@ =~= Seq::<Chunk>::empty());
        0
    } else {
        let last_offset = chunks[n - 1].offset;
        let last_len = chunks[n - 1].data.len() as u64;
        proof {
            let cs = chunks@;
            assert(cs.take(n as int) =~= cs.take(n - 1).push(cs[n - 1]));
            lemma_concat_chunks_push(cs.take(n - 1), cs[n - 1]);
        }
        if last_offset > u64::MAX - last_len {
            return Err(size_overflow_error());
        }
        last_offset + last_len
    };
    assert(total == concat_chunks(chunks@).len());
    let b = blob_of_chunks(&chunks, total);
    proof {
        let es = b.chunks@;
        let cs = chunks@;
        lemma_entry_sizes(es, cs, cs.len() as int);
        assert(es.take(es.len() as int) =~= es);
        assert forall|i: int| 0 <= i < es.len() implies #[trigger] es[i].offset == sum_sizes(es.take(i)) by {
            lemma_entry_sizes(es, cs, i);
        }
        assert forall|i: int| 1 <= i < es.len() implies es[i - 1].offset < #[trigger] es[i].offset by {
            assert(cs[i].offset == cs[i - 1].offset + cs[i - 1].data@.len());
        }
    }
    Ok((b, chunks))
}

/// A file's blob, read from `reader` and cut by FastCDC with the default
/// sizes, with its chunks (which the caller stores). Fails when reading
/// fails, or when the total size does not fit in 64 bits.
pub fn blob_from_reader<R: std::io::Read>(reader: R) -> (r: Result<(Blob, Vec<Chunk>), std::io::Error>)
    ensures
        r matches Err(e) ==> read_fails_with(reader, e) || exists|d: Seq<u8>|
            #[trigger] reads_as(reader, d) && d.len() > u64::MAX,
        r matches Ok((b, cs)) ==> {
            &&& reads_as(reader, concat_chunks(cs@))
            &&& b.spec_valid()
            &&& b.total_size == concat_chunks(cs@).len()
            &&& b.chunks@.len() == cs@.len()
            &&& forall|i: int| 0 <= i < cs@.len() ==> {
                &&& (#[trigger] b.chunks@[i]).hash == cs@[i].hash
                &&& b.chunks@[i].size == cs@[i].data@.len()
                &&& b.chunks@[i].offset == cs@[i].offset
            }
            &&& forall|i: int| 0 <= i < cs@.len() ==> (#[trigger] cs@[i]).spec_intact()
            &&& forall|i: int| 0 <= i < cs@.len() ==> 1 <= (#[trigger] cs@[i]).data@.len() <= DEFAULT_MAX_SIZE
            &&& forall|i: int| 0 <= i < cs@.len() - 1 ==> (#[trigger] cs@[i]).data@.len() >= DEFAULT_MIN_SIZE
            &&& concat_chunks(cs@).len() <= usize::MAX ==> chunks_from_cuts(
                cs@,
                concat_chunks(cs@),
                spec_fastcdc_cuts(concat_chunks(cs@), 16384, 65536, 1048576),
            )
        },
{
    let chunks = match stream_chunk_cdc(reader) {
        Ok(cs) => cs,
        Err(e) => {
            return Err(e);
        },
    };
    let ghost data = concat_chunks(chunks@);
    let r = blob_from_chunks(chunks);
    assert(r is Err ==> reads_as(reader, data) && data.len() > u64::MAX);
    r
}

} // verus!
