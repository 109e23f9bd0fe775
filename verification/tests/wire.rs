use sdal::binary::BinaryReader;
use sdal::wire::{read_frame, write_end, write_frame, Frame, FrameType, WireError, MAX_FRAME_SIZE};

#[test]
fn test_frame_roundtrip() {
    let frame = Frame {
        frame_type: FrameType::Chunk,
        data: b"hello world".to_vec(),
    };

    let mut buf = Vec::new();
    write_frame(&mut buf, &frame);
    write_end(&mut buf);

    let mut cursor = BinaryReader::new(buf);
    let read_back = read_frame(&mut cursor).unwrap().unwrap();
    assert_eq!(read_back.frame_type, FrameType::Chunk);
    assert_eq!(read_back.data, b"hello world");

    let end = read_frame(&mut cursor).unwrap();
    assert!(end.is_none());
}

#[test]
fn test_empty_frame() {
    let frame = Frame {
        frame_type: FrameType::Object,
        data: Vec::new(),
    };

    let mut buf = Vec::new();
    write_frame(&mut buf, &frame);

    let mut cursor = BinaryReader::new(buf);
    let read_back = read_frame(&mut cursor).unwrap().unwrap();
    assert_eq!(read_back.frame_type, FrameType::Object);
    assert!(read_back.data.is_empty());
}

#[test]
fn frame_bytes_layout() {
    let mut buf = Vec::new();
    write_frame(&mut buf, &Frame { frame_type: FrameType::Ref, data: vec![9, 8, 7] });
    assert_eq!(buf, vec![3, 3, 0, 0, 0, 9, 8, 7]);
    write_end(&mut buf);
    assert_eq!(&buf[8..], &[255, 0, 0, 0, 0]);
}

#[test]
fn frame_type_bytes() {
    assert_eq!(FrameType::from_u8(1), Some(FrameType::Chunk));
    assert_eq!(FrameType::from_u8(2), Some(FrameType::Object));
    assert_eq!(FrameType::from_u8(3), Some(FrameType::Ref));
    assert_eq!(FrameType::from_u8(255), Some(FrameType::End));
    assert_eq!(FrameType::from_u8(4), None);
    assert_eq!(FrameType::End.to_u8(), 255);
}

#[test]
fn empty_input_is_unexpected_eof() {
    let mut r = BinaryReader::new(Vec::new());
    assert!(matches!(read_frame(&mut r), Err(WireError::UnexpectedEof)));
}

#[test]
fn unknown_frame_type_is_refused() {
    let mut r = BinaryReader::new(vec![7, 0, 0, 0, 0]);
    assert!(matches!(read_frame(&mut r), Err(WireError::UnknownFrameType(7))));
}

#[test]
fn truncated_frame_is_refused() {
    let mut r = BinaryReader::new(vec![1, 5, 0, 0, 0, 1, 2]);
    assert!(matches!(read_frame(&mut r), Err(WireError::UnexpectedEof)));
    let mut r = BinaryReader::new(vec![1, 5, 0]);
    assert!(matches!(read_frame(&mut r), Err(WireError::UnexpectedEof)));
}

#[test]
fn oversized_frame_is_refused() {
    let size = (MAX_FRAME_SIZE + 1) as u32;
    let mut bytes = vec![1];
    bytes.extend_from_slice(&size.to_le_bytes());
    let mut r = BinaryReader::new(bytes);
    match read_frame(&mut r) {
        Err(WireError::FrameTooLarge(n)) => assert_eq!(n, MAX_FRAME_SIZE + 1),
        other => panic!("expected FrameTooLarge, got {:?}", other),
    }
}
