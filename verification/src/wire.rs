//! Binary wire format for streaming objects between peers.
//!
//! A frame is `[type: u8][size: u32 LE][data: size bytes]`. Types: 0x01 chunk
//! data, 0x02 object metadata, 0x03 ref update, 0xFF end of stream. The end
//! marker carries no data.

use vstd::prelude::*;
use crate::binary::{from_le32, le32, lemma_le32_roundtrip, BinaryReader, CodecError};

verus! {

/// Largest accepted frame payload: 64 MiB.
pub const MAX_FRAME_SIZE: usize = 67108864;

/// Wire frame types.
#[derive(Debug, Clone, Copy, PartialEq, Eq, Structural)]
pub enum FrameType {
    Chunk,
    Object,
    Ref,
    End,
}

/// The byte that stands for a frame type on the wire.
pub open spec fn frame_type_byte(t: FrameType) -> u8 {
    match t {
        FrameType::Chunk => 1,
        FrameType::Object => 2,
        FrameType::Ref => 3,
        FrameType::End => 255,
    }
}

/// The frame type a byte stands for, if any.
pub open spec fn spec_frame_type(v: u8) -> Option<FrameType> {
    if v == 1 {
        Some(FrameType::Chunk)
    } else if v == 2 {
        Some(FrameType::Object)
    } else if v == 3 {
        Some(FrameType::Ref)
    } else if v == 255 {
        Some(FrameType::End)
    } else {
        None
    }
}

impl FrameType {
    /// The frame type for a wire byte; `None` for unknown bytes.
    pub fn from_u8(v: u8) -> (r: Option<Self>)
        ensures
            r == spec_frame_type(v),
    {
        match v {
            1 => Some(FrameType::Chunk),
            2 => Some(FrameType::Object),
            3 => Some(FrameType::Ref),
            255 => Some(FrameType::End),
            _ => None,
        }
    }

    /// The wire byte of this frame type.
    pub fn to_u8(self) -> (r: u8)
        ensures
            r == frame_type_byte(self),
            spec_frame_type(r) == Some(self),
    {
        match self {
            FrameType::Chunk => 1,
            FrameType::Object => 2,
            FrameType::Ref => 3,
            FrameType::End => 255,
        }
    }
}

/// A single frame on the wire.
#[derive(Debug)]
pub struct Frame {
    pub frame_type: FrameType,
    pub data: Vec<u8>,
}

/// Why a frame cannot be read.
#[derive(Debug)]
pub enum WireError {
    /// The input ended inside a frame.
    UnexpectedEof,
    /// The type byte is not a known frame type.
    UnknownFrameType(u8),
    /// The declared size exceeds `MAX_FRAME_SIZE`.
    FrameTooLarge(usize),
}

/// The bytes of a frame: type byte, size (modulo 2^32), data.
pub open spec fn frame_bytes(t: FrameType, data: Seq<u8>) -> Seq<u8> {
    seq![frame_type_byte(t)] + le32((data.len() % 4294967296) as u32) + data
}

/// Writes a frame after what `w` holds.
pub fn write_frame(w: &mut Vec<u8>, frame: &Frame)
    ensures
        final(w)@ == old(w)@ + frame_bytes(frame.frame_type, frame.data@),
{
    let ghost start = w@;
    w.push(frame.frame_type.to_u8());
    let size = ((frame.data.len() as u64) % 4294967296) as u32;
    w.push((size % 256) as u8);
    w.push(((size / 256) % 256) as u8);
    w.push(((size / 65536) % 256) as u8);
    w.push((size / 16777216) as u8);
    w.extend_from_slice(frame.data.as_slice());
    assert(w@ =~= start + frame_bytes(frame.frame_type, frame.data@));
}

/// Writes the end-of-stream marker: an end frame with no data.
pub fn write_end(w: &mut Vec<u8>)
    ensures
        final(w)@ == old(w)@ + frame_bytes(FrameType::End, Seq::empty()),
{
    let frame = Frame { frame_type: FrameType::End, data: Vec::new() };
    write_frame(w, &frame);
}

/// What reading a frame from the front of `s` gives, with what follows it:
/// `None` for the end marker.
pub open spec fn spec_read_frame(s: Seq<u8>) -> Result<(Option<(FrameType, Seq<u8>)>, Seq<u8>), WireError> {
    if s.len() < 1 {
        Err(WireError::UnexpectedEof)
    } else if spec_frame_type(s[0]) is None {
        Err(WireError::UnknownFrameType(s[0]))
    } else if s.len() < 5 {
        Err(WireError::UnexpectedEof)
    } else if spec_frame_type(s[0]) == Some(FrameType::End) {
        Ok((None, s.skip(5)))
    } else {
        let size = from_le32(s.skip(1)) as int;
        if size > MAX_FRAME_SIZE {
            Err(WireError::FrameTooLarge(size as usize))
        } else if s.len() < 5 + size {
            Err(WireError::UnexpectedEof)
        } else {
            Ok((Some((spec_frame_type(s[0])->Some_0, s.subrange(5, 5 + size))), s.skip(5 + size)))
        }
    }
}

/// Reads one frame. Returns `None` for the end marker.
pub fn read_frame(r: &mut BinaryReader) -> (res: Result<Option<Frame>, WireError>)
    requires
        old(r).wf(),
    ensures
        final(r).wf(),
        final(r).data() == old(r).data(),
        match spec_read_frame(old(r).remaining()) {
            Ok((None, rest)) => res matches Ok(None) && final(r).remaining() == rest,
            Ok((Some((t, data)), rest)) => (res matches Ok(Some(f)) && f.frame_type == t && f.data@
                == data) && final(r).remaining() == rest,
            Err(e) => res == Err::<Option<Frame>, WireError>(e),
        },
{
    let ghost s = r.remaining();
    let t = match r.read_u8() {
        Ok(v) => v,
        Err(_) => {
            return Err(WireError::UnexpectedEof);
        },
    };
    let frame_type = match FrameType::from_u8(t) {
        Some(ft) => ft,
        None => {
            return Err(WireError::UnknownFrameType(t));
        },
    };
    let size = match r.read_u32() {
        Ok(v) => v,
        Err(_) => {
            return Err(WireError::UnexpectedEof);
        },
    };
    assert(s.skip(1).skip(4) =~= s.skip(5));
    if frame_type == FrameType::End {
        return Ok(None);
    }
    let size = size as usize;
    if size > MAX_FRAME_SIZE {
        return Err(WireError::FrameTooLarge(size));
    }
    let data = match r.read_bytes(size) {
        Ok(d) => d,
        Err(_) => {
            return Err(WireError::UnexpectedEof);
        },
    };
    assert(s.skip(5).take(size as int) =~= s.subrange(5, 5 + size));
    assert(s.skip(5).skip(size as int) =~= s.skip(5 + size));
    Ok(Some(Frame { frame_type, data }))
}

/// Frames read back as written: a data frame of at most `MAX_FRAME_SIZE`
/// bytes reads back with the same type and data, and the end marker reads
/// back as `None`; in both cases exactly the written bytes are consumed.
pub proof fn lemma_frame_roundtrip(t: FrameType, data: Seq<u8>, rest: Seq<u8>)
    requires
        t != FrameType::End ==> data.len() <= MAX_FRAME_SIZE,
        t == FrameType::End ==> data.len() == 0,
    ensures
        t != FrameType::End ==> spec_read_frame(frame_bytes(t, data) + rest) == Ok::<
            (Option<(FrameType, Seq<u8>)>, Seq<u8>),
            WireError,
        >((Some((t, data)), rest)),
        t == FrameType::End ==> spec_read_frame(frame_bytes(t, data) + rest) == Ok::<
            (Option<(FrameType, Seq<u8>)>, Seq<u8>),
            WireError,
        >((None, rest)),
{
    let s = frame_bytes(t, data) + rest;
    let n = (data.len() % 4294967296) as u32;
    lemma_le32_roundtrip(n);
    assert(s[0] == frame_type_byte(t));
    assert(s.skip(1) =~= le32(n) + data + rest);
    assert(from_le32(s.skip(1)) == from_le32(le32(n)));
    assert(s.subrange(5, 5 + data.len() as int) =~= data);
    assert(s.skip(5 + data.len() as int) =~= rest);
}

} // verus!
