use sdal::chunking::{blob_from_chunks, blob_from_reader, chunks_from_pieces, stream_chunk_cdc, Chunk, Chunker, ChunkingError, FastCDC, FixedSizeChunker};

fn pseudo(n: usize) -> Vec<u8> {
    let mut v = Vec::with_capacity(n);
    let mut x: u64 = 0x9E37_79B9_7F4A_7C15;
    for _ in 0..n {
        x ^= x << 13;
        x ^= x >> 7;
        x ^= x << 17;
        v.push((x & 0xFF) as u8);
    }
    v
}

#[test]
fn test_fastcdc_deterministic() {
    let data = b"Hello, world! This is a test of FastCDC chunking. \
                 It should produce the same chunks every time for the same data. \
                 This is critical for SDAL's integrity model."
        .repeat(100);

    let chunker = FastCDC::new();

    let chunks1 = chunker.chunk(&data).unwrap();
    let chunks2 = chunker.chunk(&data).unwrap();

    assert_eq!(chunks1.len(), chunks2.len());
    for (c1, c2) in chunks1.iter().zip(chunks2.iter()) {
        assert_eq!(c1.hash, c2.hash);
        assert_eq!(c1.offset, c2.offset);
        assert_eq!(c1.data, c2.data);
    }
}

#[test]
fn test_fastcdc_split_large_file() {
    let data = pseudo(200 * 1024);

    let chunker = FastCDC::new();
    let chunks = chunker.chunk(&data).unwrap();

    assert!(chunks.len() > 1, "FastCDC should split 200KB into multiple chunks");

    let total: usize = chunks.iter().map(|c| c.data.len()).sum();
    assert_eq!(total, data.len(), "Total chunk size should equal original data");
}

#[test]
fn test_fastcdc_size_constraints() {
    let data = b"X".repeat(2 * 1024 * 1024);

    let chunker = FastCDC::new();
    let chunks = chunker.chunk(&data).unwrap();
    let (min_size, _avg_size, max_size) = chunker.params();

    for chunk in &chunks {
        let size = chunk.data.len();
        assert!(
            size >= min_size || chunk.offset + size as u64 == data.len() as u64,
            "Chunk too small: {} bytes",
            size
        );
        assert!(size <= max_size, "Chunk too large: {} bytes", size);
    }
}

#[test]
fn test_fastcdc_offset_continuity() {
    let data = b"Test data for offset verification. ".repeat(1000);

    let chunker = FastCDC::new();
    let chunks = chunker.chunk(&data).unwrap();

    let mut expected_offset = 0u64;
    for chunk in &chunks {
        assert_eq!(chunk.offset, expected_offset, "Offset discontinuity detected");
        expected_offset += chunk.data.len() as u64;
    }

    assert_eq!(expected_offset, data.len() as u64);
}

#[test]
fn test_fixed_size_chunking() {
    let data = b"hello world, this is a test string for chunking.";
    let chunker = FixedSizeChunker::new(10);
    let chunks = chunker.chunk(data).unwrap();

    assert_eq!(chunks.len(), 5);
    assert_eq!(chunks[0].data, b"hello worl");
    assert_eq!(chunks[0].offset, 0);

    assert!(!chunks[0].hash.is_empty());
}

#[test]
fn streaming_matches_in_memory_fastcdc() {
    let data = pseudo(3 * 1024 * 1024);
    let in_mem = FastCDC::new().chunk(&data).unwrap();
    let streamed: Vec<Chunk> = stream_chunk_cdc(&data[..]).unwrap();

    assert!(in_mem.len() > 1, "test data should span multiple chunks");
    assert_eq!(streamed.len(), in_mem.len(), "chunk count must match");
    for (s, m) in streamed.iter().zip(in_mem.iter()) {
        assert_eq!(s.hash, m.hash, "chunk hash diverged at offset {}", m.offset);
        assert_eq!(s.offset, m.offset, "chunk offset diverged");
        assert_eq!(s.data.len(), m.data.len(), "chunk length diverged");
    }
}

#[test]
fn streaming_empty_input_yields_no_chunks() {
    let streamed: Vec<Chunk> = stream_chunk_cdc(&b""[..]).unwrap();
    assert!(streamed.is_empty());
}

#[test]
fn chunk_hash_is_sha256_hex_of_its_bytes() {
    let c = Chunk::new(b"abc".to_vec(), 7);
    assert_eq!(c.hash, "ba7816bf8f01cfea414140de5dae2223b00361a396177a9cb410ff61f20015ad");
    assert_eq!(c.offset, 7);
    assert!(c.verify().is_ok());
}

#[test]
fn chunk_verify_detects_tampering() {
    let mut c = Chunk::new(b"abc".to_vec(), 0);
    c.data = b"abd".to_vec();
    match c.verify() {
        Err(ChunkingError::Other(msg)) => assert!(msg.starts_with("Chunk integrity violation")),
        other => panic!("expected an integrity error, got {:?}", other),
    }
}

#[test]
fn fixed_size_chunks_tile_the_input() {
    let data = pseudo(1000);
    let chunks = FixedSizeChunker::new(64).chunk(&data).unwrap();
    assert_eq!(chunks.len(), 16);
    let mut offset = 0u64;
    for c in &chunks {
        assert_eq!(c.offset, offset);
        assert_eq!(c.data[..], data[offset as usize..offset as usize + c.data.len()]);
        assert!(c.verify().is_ok());
        offset += c.data.len() as u64;
    }
    assert_eq!(chunks.last().unwrap().data.len(), 1000 - 15 * 64);
}

#[test]
fn empty_input_gives_no_chunks() {
    assert!(FixedSizeChunker::new(10).chunk(b"").unwrap().is_empty());
    assert!(FastCDC::new().chunk(b"").unwrap().is_empty());
}

#[test]
fn fastcdc_default_and_custom_parameters() {
    assert_eq!(FastCDC::new().params(), (16384, 65536, 1048576));
    assert_eq!(FastCDC::default().params(), (16384, 65536, 1048576));
    let c = FastCDC::with_sizes(1024, 4096, 16384);
    assert_eq!(c.params(), (1024, 4096, 16384));
    let data = pseudo(100 * 1024);
    let chunks = c.chunk(&data).unwrap();
    assert!(chunks.len() > 1);
    for ch in &chunks {
        assert!(ch.data.len() <= 16384);
        assert!(ch.verify().is_ok());
    }
}

#[test]
fn small_input_is_one_chunk() {
    let data = b"short".to_vec();
    let chunks = FastCDC::new().chunk(&data).unwrap();
    assert_eq!(chunks.len(), 1);
    assert_eq!(chunks[0].data, data);
    assert_eq!(chunks[0].offset, 0);
}

#[test]
fn chunks_from_cut_pieces() {
    let pieces = vec![(0u64, b"abc".to_vec()), (3u64, b"de".to_vec())];
    let cs = chunks_from_pieces(pieces);
    assert_eq!(cs.len(), 2);
    assert_eq!(cs[0].offset, 0);
    assert_eq!(cs[0].data, b"abc".to_vec());
    assert_eq!(cs[0].hash, sdal::hashing::sha256_hex(b"abc"));
    assert_eq!(cs[1].offset, 3);
    assert_eq!(cs[1].data, b"de".to_vec());
    assert_eq!(cs[1].hash, sdal::hashing::sha256_hex(b"de"));
    assert!(chunks_from_pieces(vec![]).is_empty());
}

#[test]
fn blob_from_reader_matches_in_memory_chunking() {
    let data = pseudo(2 * 1024 * 1024 + 123);
    let in_mem = FastCDC::new().chunk(&data).unwrap();
    let (blob, chunks) = blob_from_reader(&data[..]).unwrap();
    assert!(blob.validate().is_ok());
    assert_eq!(blob.total_size, data.len() as u64);
    assert_eq!(chunks.len(), in_mem.len());
    assert_eq!(blob.chunks.len(), in_mem.len());
    for ((e, c), m) in blob.chunks.iter().zip(chunks.iter()).zip(in_mem.iter()) {
        assert_eq!(e.hash, m.hash);
        assert_eq!(e.offset, m.offset);
        assert_eq!(e.size, m.data.len() as u64);
        assert_eq!(c.data, m.data);
    }
    let (empty, none) = blob_from_reader(&b""[..]).unwrap();
    assert_eq!(empty.total_size, 0);
    assert!(empty.chunks.is_empty() && none.is_empty());
}

#[test]
fn blob_from_cut_chunks() {
    let chunks = vec![Chunk::new(b"hello ".to_vec(), 0), Chunk::new(b"world".to_vec(), 6)];
    let (blob, back) = blob_from_chunks(chunks).unwrap();
    assert!(blob.validate().is_ok());
    assert_eq!(blob.total_size, 11);
    assert_eq!(back.len(), 2);
    assert_eq!(back[1].data, b"world".to_vec());
    assert_eq!(blob.chunks[1].offset, 6);
    assert_eq!(blob.chunks[1].size, 5);
    assert_eq!(blob.chunks[0].hash, sdal::hashing::sha256_hex(b"hello "));
    let (empty, none) = blob_from_chunks(vec![]).unwrap();
    assert_eq!(empty.total_size, 0);
    assert!(empty.chunks.is_empty() && none.is_empty());
}
