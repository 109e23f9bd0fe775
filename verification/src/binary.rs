//! Little-endian byte writer and reader used by the binary object formats.

use vstd::prelude::*;

verus! {

/// Little-endian spelling of a 16-bit value.
pub open spec fn le16(v: u16) -> Seq<u8> {
    seq![(v % 256) as u8, (v / 256) as u8]
}

/// Little-endian spelling of a 32-bit value.
pub open spec fn le32(v: u32) -> Seq<u8> {
    seq![
        (v % 256) as u8,
        ((v / 256) % 256) as u8,
        ((v / 65536) % 256) as u8,
        (v / 16777216) as u8,
    ]
}

/// The 16-bit value of two little-endian bytes.
pub open spec fn from_le16(b: Seq<u8>) -> u16 {
    (b[0] + 256 * b[1]) as u16
}

/// The 32-bit value of four little-endian bytes.
pub open spec fn from_le32(b: Seq<u8>) -> u32 {
    (b[0] + 256 * b[1] + 65536 * b[2] + 16777216 * b[3]) as u32
}

pub proof fn lemma_le16_roundtrip(v: u16)
    ensures
        from_le16(le16(v)) == v,
        le16(v).len() == 2,
{
}

pub proof fn lemma_le32_roundtrip(v: u32)
    ensures
        from_le32(le32(v)) == v,
        le32(v).len() == 4,
{
}

/// Ways in which decoding binary data fails.
#[derive(Debug)]
pub enum CodecError {
    /// The input ended before a complete value.
    UnexpectedEof,
    /// A tree does not start with the tree magic.
    InvalidMagic,
    /// A tree's format version is not the supported one.
    UnsupportedVersion,
    /// A tree declares more entries than allowed.
    TooManyEntries,
    /// A tree entry's name is empty or too long.
    InvalidNameLength,
    /// A tree entry's name is not UTF-8.
    InvalidUtf8Name,
    /// A tree entry's type byte is neither blob nor tree.
    InvalidEntryType,
    /// A tree entry's hash is not hexadecimal.
    InvalidHash,
    /// A tree entry's hash is not 32 bytes long.
    InvalidHashLength,
    /// The decoded tree breaks a tree invariant; the message says which.
    InvalidTree(String),
}

/// Appends little-endian values to a byte buffer.
pub struct BinaryWriter {
    inner: Vec<u8>,
}

impl View for BinaryWriter {
    type V = Seq<u8>;

    closed spec fn view(&self) -> Seq<u8> {
        self.inner@
    }
}

impl BinaryWriter {
    pub fn new(inner: Vec<u8>) -> (w: Self)
        ensures
            w@ == inner@,
    {
        BinaryWriter { inner }
    }

    pub fn write_u8(&mut self, v: u8)
        ensures
            final(self)@ == old(self)@.push(v),
    {
        self.inner.push(v);
    }

    pub fn write_u16(&mut self, v: u16)
        ensures
            final(self)@ == old(self)@ + le16(v),
    {
        self.inner.push((v % 256) as u8);
        self.inner.push((v / 256) as u8);
        assert(self.inner@ =~= old(self)@ + le16(v));
    }

    pub fn write_u32(&mut self, v: u32)
        ensures
            final(self)@ == old(self)@ + le32(v),
    {
        self.inner.push((v % 256) as u8);
        self.inner.push(((v / 256) % 256) as u8);
        self.inner.push(((v / 65536) % 256) as u8);
        self.inner.push((v / 16777216) as u8);
        assert(self.inner@ =~= old(self)@ + le32(v));
    }

    pub fn write_bytes(&mut self, b: &[u8])
        ensures
            final(self)@ == old(self)@ + b@,
    {
        let mut i: usize = 0;
        while i < b.len()
            invariant
                i <= b@.len(),
                self.inner@ =~= old(self)@ + b@.take(i as int),
            decreases b@.len() - i,
        {
            self.inner.push(b[i]);
            assert(b@.take(i + 1) =~= b@.take(i as int).push(b@[i as int]));
            i = i + 1;
        }
        assert(b@.take(b@.len() as int) =~= b@);
    }

    /// The bytes written so far, with whatever the buffer held at the start.
    pub fn into_inner(self) -> (v: Vec<u8>)
        ensures
            v@ == self@,
    {
        self.inner
    }
}

/// Reads little-endian values from the front of a byte buffer.
pub struct BinaryReader {
    data: Vec<u8>,
    pos: usize,
}

impl BinaryReader {
    /// All the bytes the reader was made with.
    pub closed spec fn data(&self) -> Seq<u8> {
        self.data@
    }

    /// How many bytes have been consumed.
    pub closed spec fn pos(&self) -> int {
        self.pos as int
    }

    /// The bytes not read yet.
    pub open spec fn remaining(&self) -> Seq<u8> {
        self.data().skip(self.pos())
    }

    pub closed spec fn wf(&self) -> bool {
        self.pos <= self.data@.len()
    }

    pub fn new(inner: Vec<u8>) -> (r: Self)
        ensures
            r.wf(),
            r.data() == inner@,
            r.pos() == 0,
            r.remaining() == inner@,
    {
        let r = BinaryReader { data: inner, pos: 0 };
        assert(r.data@.skip(0) =~= r.data@);
        r
    }

    /// Reads `len` bytes, or fails without consuming anything when fewer remain.
    pub fn read_bytes(&mut self, len: usize) -> (r: Result<Vec<u8>, CodecError>)
        requires
            old(self).wf(),
        ensures
            final(self).wf(),
            final(self).data() == old(self).data(),
            old(self).remaining().len() < len ==> r is Err && (r matches Err(
                CodecError::UnexpectedEof,
            )) && final(self).pos() == old(self).pos(),
            old(self).remaining().len() >= len ==> (r matches Ok(v) && v@ == old(
                self,
            ).remaining().take(len as int)) && final(self).pos() == old(self).pos() + len,
            final(self).remaining() == (if old(self).remaining().len() >= len {
                old(self).remaining().skip(len as int)
            } else {
                old(self).remaining()
            }),
    {
        if self.data.len() - self.pos < len {
            return Err(CodecError::UnexpectedEof);
        }
        let dlen = self.data.len();
        let mut out: Vec<u8> = Vec::with_capacity(len);
        let mut i: usize = 0;
        while i < len
            invariant
                dlen == self.data@.len(),
                self.pos + len <= dlen,
                i <= len,
                out@ =~= self.data@.subrange(self.pos as int, self.pos + i),
            decreases len - i,
        {
            out.push(self.data[self.pos + i]);
            i = i + 1;
        }
        let ghost old_pos = self.pos;
        self.pos = self.pos + len;
        assert(out@ =~= self.data@.skip(old_pos as int).take(len as int));
        assert(self.data@.skip(self.pos as int) =~= self.data@.skip(old_pos as int).skip(len as int));
        Ok(out)
    }

    pub fn read_u8(&mut self) -> (r: Result<u8, CodecError>)
        requires
            old(self).wf(),
        ensures
            final(self).wf(),
            final(self).data() == old(self).data(),
            old(self).remaining().len() < 1 ==> (r matches Err(CodecError::UnexpectedEof))
                && final(self).remaining() == old(self).remaining(),
            old(self).remaining().len() >= 1 ==> r == Ok::<u8, CodecError>(old(self).remaining()[0])
                && final(self).remaining() == old(self).remaining().skip(1),
    {
        if self.pos >= self.data.len() {
            return Err(CodecError::UnexpectedEof);
        }
        let v = self.data[self.pos];
        self.pos = self.pos + 1;
        assert(self.data@.skip(self.pos as int) =~= self.data@.skip(self.pos - 1).skip(1));
        Ok(v)
    }

    pub fn read_u16(&mut self) -> (r: Result<u16, CodecError>)
        requires
            old(self).wf(),
        ensures
            final(self).wf(),
            final(self).data() == old(self).data(),
            old(self).remaining().len() < 2 ==> (r matches Err(CodecError::UnexpectedEof))
                && final(self).remaining() == old(self).remaining(),
            old(self).remaining().len() >= 2 ==> r == Ok::<u16, CodecError>(from_le16(old(self).remaining()))
                && final(self).remaining() == old(self).remaining().skip(2),
    {
        if self.data.len() - self.pos < 2 {
            return Err(CodecError::UnexpectedEof);
        }
        let lo = self.data[self.pos] as u16;
        let hi = self.data[self.pos + 1] as u16;
        assert(256 * hi <= 65280) by (nonlinear_arith)
            requires
                hi <= 255,
        ;
        let v = lo + 256 * hi;
        self.pos = self.pos + 2;
        assert(self.data@.skip(self.pos as int) =~= self.data@.skip(self.pos - 2).skip(2));
        Ok(v)
    }

    pub fn read_u32(&mut self) -> (r: Result<u32, CodecError>)
        requires
            old(self).wf(),
        ensures
            final(self).wf(),
            final(self).data() == old(self).data(),
            old(self).remaining().len() < 4 ==> (r matches Err(CodecError::UnexpectedEof))
                && final(self).remaining() == old(self).remaining(),
            old(self).remaining().len() >= 4 ==> r == Ok::<u32, CodecError>(from_le32(old(self).remaining()))
                && final(self).remaining() == old(self).remaining().skip(4),
    {
        if self.data.len() - self.pos < 4 {
            return Err(CodecError::UnexpectedEof);
        }
        let p = self.pos;
        let b0 = self.data[p] as u32;
        let b1 = self.data[p + 1] as u32;
        let b2 = self.data[p + 2] as u32;
        let b3 = self.data[p + 3] as u32;
        assert(b0 + 256 * b1 + 65536 * b2 + 16777216 * b3 <= u32::MAX) by (nonlinear_arith)
            requires
                b0 <= 255,
                b1 <= 255,
                b2 <= 255,
                b3 <= 255,
        ;
        let v = b0 + 256 * b1 + 65536 * b2 + 16777216 * b3;
        self.pos = self.pos + 4;
        assert(self.data@.skip(self.pos as int) =~= self.data@.skip(self.pos - 4).skip(4));
        Ok(v)
    }
}

} // verus!
