use blake3_merkle::{Merkle, MerkleError, BLOCK_CHUNK, CHUNK_LEN};

const BLOCK_BYTES: usize = CHUNK_LEN << (BLOCK_CHUNK as usize);

fn pattern(len: usize) -> Vec<u8> {
    (0..len).map(|i| (i % 251) as u8).collect()
}

fn stream_all(data: &[u8]) -> Merkle {
    let mut m = Merkle::new();
    assert_eq!(m.write(data), Ok(data.len()));
    assert_eq!(m.finalize(), Ok(()));
    m
}

fn depths(m: &Merkle) -> Vec<u8> {
    m.li.iter().map(|hd| hd.depth).collect()
}

#[test]
fn empty_input_matches_reference() {
    let m = stream_all(&[]);
    assert_eq!(m.li.len(), 0);
    assert_eq!(&m.blake3().bytes, blake3::hash(&[]).as_bytes());
}

#[test]
fn one_unit_matches_reference() {
    let buf = vec![0xabu8; CHUNK_LEN];
    let m = stream_all(&buf);
    assert_eq!(depths(&m), vec![0]);
    assert_eq!(&m.blake3().bytes, blake3::hash(&buf).as_bytes());
}

#[test]
fn two_units_matches_reference() {
    let buf = pattern(2 * CHUNK_LEN);
    let m = stream_all(&buf);
    assert_eq!(depths(&m), vec![1]);
    assert_eq!(&m.blake3().bytes, blake3::hash(&buf).as_bytes());
}

#[test]
fn one_full_block_of_zeros_matches_reference() {
    let buf = vec![0u8; BLOCK_BYTES];
    let m = stream_all(&buf);
    assert_eq!(depths(&m), vec![BLOCK_CHUNK]);
    assert_eq!(&m.blake3().bytes, blake3::hash(&buf).as_bytes());
}

#[test]
fn block_plus_ten_bytes_matches_reference() {
    let buf = pattern(BLOCK_BYTES + 10);
    let m = stream_all(&buf);
    assert_eq!(depths(&m), vec![BLOCK_CHUNK, 0]);
    assert_eq!(&m.blake3().bytes, blake3::hash(&buf).as_bytes());
}

#[test]
fn streaming_matches_reference_across_lengths() {
    for len in [
        0usize,
        1,
        2,
        1023,
        1024,
        1025,
        2047,
        2048,
        2049,
        3000,
        5 * 1024,
        7 * 1024 + 13,
        64 * 1024,
        100 * 1024 + 7,
    ] {
        let buf = pattern(len);
        let m = stream_all(&buf);
        assert_eq!(
            &m.blake3().bytes,
            blake3::hash(&buf).as_bytes(),
            "length {}",
            len
        );
    }
}

#[test]
fn streaming_matches_reference_around_block_boundary() {
    for len in [
        BLOCK_BYTES - 1,
        BLOCK_BYTES,
        BLOCK_BYTES + 1,
        BLOCK_BYTES + CHUNK_LEN,
        2 * BLOCK_BYTES,
        2 * BLOCK_BYTES + 3 * CHUNK_LEN + 5,
    ] {
        let buf = pattern(len);
        let m = stream_all(&buf);
        assert_eq!(
            &m.blake3().bytes,
            blake3::hash(&buf).as_bytes(),
            "length {}",
            len
        );
    }
}

#[test]
fn chunking_invariance_byte_by_byte() {
    let buf = pattern(3000);
    let whole = stream_all(&buf);
    let mut m = Merkle::new();
    for b in &buf {
        assert_eq!(m.write(std::slice::from_ref(b)), Ok(1));
    }
    assert_eq!(m.finalize(), Ok(()));
    assert_eq!(m.li.len(), whole.li.len());
    for (x, y) in m.li.iter().zip(whole.li.iter()) {
        assert_eq!(x.hash.bytes, y.hash.bytes);
        assert_eq!(x.depth, y.depth);
    }
    assert_eq!(m.blake3().bytes, whole.blake3().bytes);
}

#[test]
fn chunking_invariance_odd_slices() {
    let buf = pattern(2 * CHUNK_LEN + 700);
    let whole = stream_all(&buf);
    let mut m = Merkle::new();
    let mut at = 0usize;
    for step in [1usize, 7, 1023, 1024, 1025, 99, 400] {
        let end = (at + step).min(buf.len());
        assert_eq!(m.write(&buf[at..end]), Ok(end - at));
        at = end;
    }
    assert_eq!(m.write(&buf[at..]), Ok(buf.len() - at));
    assert_eq!(m.finalize(), Ok(()));
    assert_eq!(m.blake3().bytes, whole.blake3().bytes);
    assert_eq!(depths(&m), depths(&whole));
}

#[test]
fn root_digest_is_idempotent() {
    let m = stream_all(&pattern(4321));
    let before: Vec<u8> = m.li.iter().flat_map(|hd| hd.hash.bytes).collect();
    let r1 = m.blake3();
    let r2 = m.blake3();
    assert_eq!(r1.bytes, r2.bytes);
    let after: Vec<u8> = m.li.iter().flat_map(|hd| hd.hash.bytes).collect();
    assert_eq!(before, after);
}

#[test]
fn block_count_follows_length() {
    // floor(len / block size) full blocks, plus one tail node when the
    // remainder stays clear of the final-unit carry zone.
    for (len, blocks, tail) in [
        (0usize, 0usize, 0usize),
        (1, 0, 1),
        (BLOCK_BYTES - CHUNK_LEN, 0, 1),
        (BLOCK_BYTES, 1, 0),
        (BLOCK_BYTES + 1, 1, 1),
        (2 * BLOCK_BYTES, 2, 0),
        (2 * BLOCK_BYTES + CHUNK_LEN, 2, 1),
    ] {
        let m = stream_all(&pattern(len));
        let d = depths(&m);
        let got_blocks = d.iter().filter(|&&x| x == BLOCK_CHUNK).count();
        let got_tail = d.iter().filter(|&&x| x != BLOCK_CHUNK).count();
        assert_eq!((got_blocks, got_tail), (blocks, tail), "length {}", len);
    }
}

#[test]
fn short_final_unit_still_completes_a_block() {
    // A stream shorter than a block by less than one unit still merges to a
    // single block-depth node: the partial final unit completes the depth
    // structure, and the root still matches the reference.
    let buf = pattern(BLOCK_BYTES - 512);
    let m = stream_all(&buf);
    assert_eq!(depths(&m), vec![BLOCK_CHUNK]);
    assert_eq!(&m.blake3().bytes, blake3::hash(&buf).as_bytes());
}

#[test]
fn write_after_finalize_is_rejected() {
    let mut m = Merkle::new();
    assert_eq!(m.write(&[1, 2, 3]), Ok(3));
    assert_eq!(m.finalize(), Ok(()));
    let before: Vec<u8> = m.li.iter().flat_map(|hd| hd.hash.bytes).collect();
    assert_eq!(m.write(&[4, 5]), Err(MerkleError::InvalidState));
    let after: Vec<u8> = m.li.iter().flat_map(|hd| hd.hash.bytes).collect();
    assert_eq!(before, after);
}

#[test]
fn double_finalize_is_rejected() {
    let mut m = Merkle::new();
    assert_eq!(m.write(&pattern(100)), Ok(100));
    assert_eq!(m.finalize(), Ok(()));
    assert_eq!(m.finalize(), Err(MerkleError::InvalidState));
}

#[test]
fn empty_write_is_accepted() {
    let mut m = Merkle::new();
    assert_eq!(m.write(&[]), Ok(0));
    assert_eq!(m.write(&pattern(10)), Ok(10));
    assert_eq!(m.write(&[]), Ok(0));
    assert_eq!(m.finalize(), Ok(()));
    assert_eq!(&m.blake3().bytes, blake3::hash(&pattern(10)).as_bytes());
}
