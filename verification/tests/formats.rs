use hybridcrypt::body::{
    decrypt_chunks, encrypt_chunks, BodyOpener, BodySealer, BodyStep, ReadOutcome,
};
use hybridcrypt::chunks::{chunk_aad, counter_nonce, ChunkStream, CHUNK_SIZE};
use hybridcrypt::error::CryptoError;
use hybridcrypt::header::{header_bytes, header_need};
use hybridcrypt::secure::SecureBuf;
use hybridcrypt::wire::{
    bytes_eq, push_le32, push_le64, push_u32_prefixed, read_le32, take_exact, take_u32_prefixed,
    Need,
};

const NONCE: [u8; 12] = [100, 101, 102, 103, 104, 105, 106, 107, 108, 109, 110, 111];

fn stream() -> ChunkStream {
    let key: Vec<u8> = (0..32).collect();
    ChunkStream::new(SecureBuf::from_slice(&key), &NONCE)
}

fn plain(len: usize) -> Vec<u8> {
    let mut x: u32 = 12345;
    let mut v = Vec::with_capacity(len);
    for _ in 0..len {
        x = x.wrapping_mul(1664525).wrapping_add(1013904223);
        v.push((x >> 24) as u8);
    }
    v
}

fn sealed(data: &[u8]) -> Vec<u8> {
    let mut out = Vec::new();
    assert!(encrypt_chunks(stream(), data, &mut out).is_ok());
    out
}

fn opened(body: &[u8]) -> (Result<(), CryptoError>, Vec<u8>) {
    let mut out = Vec::new();
    let r = decrypt_chunks(stream(), body, &mut out);
    (r, out)
}

/// The chunks of a body, with their lengths and tags.
fn chunks_of(body: &[u8]) -> Vec<Vec<u8>> {
    let mut rest = body;
    let mut chunks = Vec::new();
    while !rest.is_empty() {
        let n = read_le32(rest, 0) as usize + 20;
        chunks.push(rest[..n].to_vec());
        rest = &rest[n..];
    }
    chunks
}

fn assert_refused(body: &[u8], data: &[u8]) {
    let (r, out) = opened(body);
    assert_eq!(r, Err(CryptoError::BadContainer));
    assert!(data.starts_with(&out));
    assert_eq!(out.len() % CHUNK_SIZE, 0);
    assert!(data.is_empty() || out.len() < data.len());
}

#[test]
fn integers_are_little_endian() {
    let mut v = Vec::new();
    push_le32(&mut v, 0x0403_0201);
    assert_eq!(v, vec![1, 2, 3, 4]);
    assert_eq!(read_le32(&v, 0), 0x0403_0201);
    push_le64(&mut v, 0x0c0b_0a09_0807_0605);
    assert_eq!(v, vec![1, 2, 3, 4, 5, 6, 7, 8, 9, 10, 11, 12]);
    assert_eq!(read_le32(&v, 4), 0x0807_0605);
}

#[test]
fn prefixed_fields_come_back() {
    let mut v = Vec::new();
    push_u32_prefixed(&mut v, b"abc");
    push_u32_prefixed(&mut v, b"");
    assert_eq!(v, vec![3, 0, 0, 0, 97, 98, 99, 0, 0, 0, 0]);
    let mut cursor: &[u8] = &v;
    assert_eq!(take_u32_prefixed(&mut cursor), Some(&b"abc"[..]));
    assert_eq!(take_u32_prefixed(&mut cursor), Some(&b""[..]));
    assert_eq!(take_u32_prefixed(&mut cursor), None);
    assert!(cursor.is_empty());
}

#[test]
fn short_fields_are_not_taken() {
    let mut cursor: &[u8] = &[1, 2, 3];
    assert_eq!(take_exact(&mut cursor, 4), None);
    assert_eq!(cursor, &[1, 2, 3]);
    assert_eq!(take_exact(&mut cursor, 2), Some(&[1u8, 2][..]));
    assert_eq!(cursor, &[3]);
    let mut cursor: &[u8] = &[5, 0, 0, 0, 1, 2];
    assert_eq!(take_u32_prefixed(&mut cursor), None);
    assert_eq!(cursor, &[1, 2]);
}

#[test]
fn byte_strings_are_compared() {
    assert!(bytes_eq(b"", b""));
    assert!(bytes_eq(b"HPB2", b"HPB2"));
    assert!(!bytes_eq(b"HPB2", b"HPB3"));
    assert!(!bytes_eq(b"HPB2", b"HPB"));
}

#[test]
fn chunk_has_its_exact_bytes() {
    let expected: Vec<u8> = vec![
        5, 0, 0, 0, 92, 116, 215, 166, 247, 89, 90, 11, 37, 221, 109, 148, 12, 209, 192, 129, 49,
        67, 195, 110, 109,
    ];
    assert_eq!(sealed(b"hello"), expected);
    assert_eq!(opened(&expected), (Ok(()), b"hello".to_vec()));
}

#[test]
fn chunk_round_trip_for_many_sizes() {
    let sizes = [
        0,
        1,
        15,
        16,
        CHUNK_SIZE - 1,
        CHUNK_SIZE,
        CHUNK_SIZE + 1,
        2 * CHUNK_SIZE - 1,
        2 * CHUNK_SIZE,
        3 * CHUNK_SIZE + 17,
        5 * CHUNK_SIZE + 3,
    ];
    for len in sizes {
        let data = plain(len);
        let body = sealed(&data);
        let count = if len <= CHUNK_SIZE { 1 } else { (len + CHUNK_SIZE - 1) / CHUNK_SIZE };
        assert_eq!(chunks_of(&body).len(), count);
        assert_eq!(body.len(), len + 20 * count);
        assert_eq!(opened(&body), (Ok(()), data));
    }
}

#[test]
fn nonces_are_distinct_for_every_counter() {
    assert_eq!(
        counter_nonce(&NONCE, 0x0102_0304_0506_0708),
        vec![100, 101, 102, 103, 96, 110, 108, 110, 104, 110, 108, 110]
    );
    assert_eq!(counter_nonce(&NONCE, 0), NONCE.to_vec());
    let mut seen = std::collections::HashSet::new();
    for c in 0..20000u64 {
        assert!(seen.insert(counter_nonce(&NONCE, c)));
    }
    for c in [u64::MAX, 1 << 32, 1 << 63] {
        assert!(seen.insert(counter_nonce(&NONCE, c)));
    }
}

#[test]
fn associated_data_tells_counter_and_flag() {
    assert_eq!(chunk_aad(0x0102, true), vec![2, 1, 0, 0, 0, 0, 0, 0, 1]);
    assert_eq!(chunk_aad(0x0102, false), vec![2, 1, 0, 0, 0, 0, 0, 0, 0]);
    assert_ne!(chunk_aad(1, true), chunk_aad(2, true));
    assert_ne!(chunk_aad(1, true), chunk_aad(1, false));
}

#[test]
fn every_flipped_bit_is_noticed() {
    let data = plain(CHUNK_SIZE + 40);
    let body = sealed(&data);
    let second = CHUNK_SIZE + 20;
    let mut places: Vec<usize> = vec![0, 1, 2, 3, 4, 5000, CHUNK_SIZE + 3];
    places.extend(second - 16..second + 4);
    places.extend(second + 4..body.len());
    for at in places {
        for bit in 0..8 {
            let mut bad = body.clone();
            bad[at] ^= 1 << bit;
            assert_refused(&bad, &data);
        }
    }
}

#[test]
fn every_truncation_is_noticed() {
    let data = plain(2 * CHUNK_SIZE + 100);
    let body = sealed(&data);
    let mut cuts: Vec<usize> = (0..body.len()).step_by(9973).collect();
    for end in [CHUNK_SIZE + 20, 2 * (CHUNK_SIZE + 20), body.len()] {
        for cut in end - 3..=(end + 3).min(body.len() - 1) {
            cuts.push(cut);
        }
    }
    for cut in cuts {
        assert_refused(&body[..cut], &data);
    }
}

#[test]
fn reordered_repeated_removed_and_added_chunks_are_noticed() {
    let data = plain(2 * CHUNK_SIZE + 100);
    let body = sealed(&data);
    let c = chunks_of(&body);
    assert_eq!(c.len(), 3);
    let orders: [&[usize]; 8] = [
        &[1, 0, 2],
        &[0, 2, 1],
        &[2, 1, 0],
        &[0, 0, 1, 2],
        &[0, 1, 2, 2],
        &[1, 2],
        &[0, 2],
        &[0, 1],
    ];
    for order in orders {
        let mut bad = Vec::new();
        for i in order {
            bad.extend_from_slice(&c[*i]);
        }
        assert_refused(&bad, &data);
    }
    for extra in [&[0u8][..], &[0, 0, 0, 0][..], &[0, 0, 0, 0, 1][..]] {
        let mut bad = body.clone();
        bad.extend_from_slice(extra);
        assert_refused(&bad, &data);
    }
}

#[test]
fn excessive_chunk_lengths_are_refused() {
    for n in [CHUNK_SIZE as u32 + 1, 0x8000_0000, u32::MAX] {
        let mut body = Vec::new();
        push_le32(&mut body, n);
        body.extend_from_slice(&plain(CHUNK_SIZE + 40));
        assert_eq!(opened(&body), (Err(CryptoError::BadContainer), Vec::new()));
    }
    assert_eq!(opened(&[]), (Err(CryptoError::BadContainer), Vec::new()));
    assert_eq!(opened(&[1, 0, 0]), (Err(CryptoError::BadContainer), Vec::new()));
}

#[test]
fn random_bodies_are_refused() {
    let data = plain(300);
    let body = sealed(&data);
    let noise = plain(60000);
    for i in 0..1000 {
        let len = (noise[i] as usize) % 200;
        let (r, out) = opened(&noise[i..i + len]);
        assert_eq!(r, Err(CryptoError::BadContainer));
        assert!(out.is_empty());
        let mut bad = body.clone();
        let at = (noise[2 * i] as usize * 256 + noise[2 * i + 1] as usize) % bad.len();
        bad[at] ^= noise[i] | 1;
        assert_refused(&bad, &data);
    }
}

#[test]
fn streams_open_with_the_same_key_and_nonce_only() {
    let body = sealed(b"secret");
    let mut out = Vec::new();
    let other = ChunkStream::new(SecureBuf::from_slice(&[7; 32]), &NONCE);
    assert_eq!(decrypt_chunks(other, &body, &mut out), Err(CryptoError::BadContainer));
    let mut nonce = NONCE;
    nonce[0] ^= 1;
    let key: Vec<u8> = (0..32).collect();
    let other = ChunkStream::new(SecureBuf::from_slice(&key), &nonce);
    assert_eq!(decrypt_chunks(other, &body, &mut out), Err(CryptoError::BadContainer));
    assert!(out.is_empty());
}

#[test]
fn chunks_can_be_sealed_and_opened_one_by_one() {
    let data = plain(CHUNK_SIZE + 5);
    let mut s = stream();
    let mut out = Vec::new();
    let mut chunk = SecureBuf::from_slice(&data[..CHUNK_SIZE]);
    assert_eq!(s.seal_next(&mut chunk, false, &mut out), Ok(()));
    assert_eq!(chunk.len(), 0);
    let mut chunk = SecureBuf::from_slice(&data[CHUNK_SIZE..]);
    assert_eq!(s.seal_next(&mut chunk, true, &mut out), Ok(()));
    assert_eq!(out, sealed(&data));

    let c = chunks_of(&out);
    let mut s = stream();
    let mut first = SecureBuf::from_slice(&c[0][4..4 + CHUNK_SIZE]);
    assert_eq!(
        s.open_next(&mut first, &c[0][4 + CHUNK_SIZE..], true),
        Err(CryptoError::BadContainer)
    );
    assert_eq!(first.as_slice(), &c[0][4..4 + CHUNK_SIZE]);
    assert_eq!(s.open_next(&mut first, &c[0][4 + CHUNK_SIZE..], false), Ok(()));
    assert_eq!(first.as_slice(), &data[..CHUNK_SIZE]);
    let mut second = SecureBuf::from_slice(&c[1][4..9]);
    assert_eq!(s.open_next(&mut second, &c[1][9..], true), Ok(()));
    assert_eq!(second.as_slice(), &data[CHUNK_SIZE..]);
}

/// Seals `data`, read in pieces of at most `piece` bytes, with an interruption before each.
fn sealed_in_pieces(data: &[u8], piece: usize) -> Vec<u8> {
    let mut sealer = BodySealer::new(stream());
    let mut rest = data;
    let mut out = Vec::new();
    loop {
        match sealer.step() {
            BodyStep::Read(n) => {
                sealer.advance(ReadOutcome::Interrupted, &[]);
                assert_eq!(sealer.step(), BodyStep::Read(n));
                let n = n.min(piece).min(rest.len());
                sealer.advance(ReadOutcome::Bytes(n), &rest[..n]);
                rest = &rest[n..];
            }
            BodyStep::Write => assert_eq!(sealer.seal(&mut out), Ok(())),
            BodyStep::Finished => return out,
            BodyStep::Failed(_) => panic!("failed"),
        }
    }
}

/// Opens `body`, read in pieces of at most `piece` bytes, with an interruption before each.
fn opened_in_pieces(body: &[u8], piece: usize) -> (Result<(), CryptoError>, Vec<u8>) {
    let mut opener = BodyOpener::new(stream());
    let mut rest = body;
    let mut out = Vec::new();
    loop {
        match opener.step() {
            BodyStep::Read(n) => {
                opener.advance(ReadOutcome::Interrupted, &[]);
                assert_eq!(opener.step(), BodyStep::Read(n));
                let n = n.min(piece).min(rest.len());
                opener.advance(ReadOutcome::Bytes(n), &rest[..n]);
                rest = &rest[n..];
            }
            BodyStep::Write => {
                out.extend_from_slice(opener.plain());
                opener.written();
            }
            BodyStep::Finished => return (Ok(()), out),
            BodyStep::Failed(e) => return (Err(e), out),
        }
    }
}

#[test]
fn pieces_make_no_difference() {
    for len in [0, 1, 300, CHUNK_SIZE, CHUNK_SIZE + 1, 2 * CHUNK_SIZE, 2 * CHUNK_SIZE + 77] {
        let data = plain(len);
        let body = sealed(&data);
        for piece in [777, 65535, 65536, 200000] {
            assert_eq!(sealed_in_pieces(&data, piece), body);
            assert_eq!(opened_in_pieces(&body, piece), (Ok(()), data.clone()));
        }
    }
    let data = plain(40);
    let body = sealed(&data);
    assert_eq!(sealed_in_pieces(&data, 1), body);
    assert_eq!(opened_in_pieces(&body, 1), (Ok(()), data));
    for cut in 0..body.len() {
        assert_eq!(
            opened_in_pieces(&body[..cut], 3),
            (Err(CryptoError::BadContainer), Vec::new())
        );
    }
}

#[test]
fn failed_reads_are_errors_of_the_input() {
    let mut sealer = BodySealer::new(stream());
    assert_eq!(sealer.chunk_number(), 0);
    sealer.advance(ReadOutcome::Failed, &[]);
    assert_eq!(sealer.step(), BodyStep::Failed(CryptoError::Io));

    let body = sealed(&plain(40));
    for read in [0, 3, 4, 30, 59, 60] {
        let mut opener = BodyOpener::new(stream());
        let mut done = 0;
        while done < read {
            match opener.step() {
                BodyStep::Read(n) => {
                    let n = n.min(read - done);
                    opener.advance(ReadOutcome::Bytes(n), &body[done..done + n]);
                    done += n;
                }
                _ => panic!("no read"),
            }
        }
        opener.advance(ReadOutcome::Failed, &[]);
        assert_eq!(opener.step(), BodyStep::Failed(CryptoError::Io));
        assert_eq!(opener.chunk_number(), 0);
    }
}

#[test]
fn nothing_is_read_beyond_an_excessive_length() {
    let mut opener = BodyOpener::new(stream());
    assert_eq!(opener.step(), BodyStep::Read(4));
    opener.advance(ReadOutcome::Bytes(4), &[1, 0, 1, 0]);
    assert_eq!(opener.step(), BodyStep::Failed(CryptoError::BadContainer));
    let mut opener = BodyOpener::new(stream());
    opener.advance(ReadOutcome::Bytes(4), &[0, 0, 1, 0]);
    assert_eq!(opener.step(), BodyStep::Read(65536 + 16 + 4));
}

#[test]
fn headers_are_read_exactly() {
    let header = header_bytes(&[1, 2, 3], &[4, 5], &NONCE);
    let mut read: Vec<u8> = Vec::new();
    let mut needs = Vec::new();
    loop {
        match header_need(&read) {
            Need::More(n) => {
                needs.push(n);
                let at = read.len();
                read.extend_from_slice(&header[at..at + n]);
            }
            Need::Complete => break,
            Need::Bad => panic!("bad"),
        }
    }
    assert_eq!(needs, vec![4, 4, 3, 4, 2, 12]);
    assert_eq!(read, header);
}

#[test]
fn bad_headers_are_seen_early() {
    assert_eq!(header_need(b"HCX2"), Need::Bad);
    assert_eq!(header_need(b"HC"), Need::More(2));
    assert_eq!(header_need(b"HCX3\x00\x10\x00\x00"), Need::More(4096));
    assert_eq!(header_need(b"HCX3\x01\x10\x00\x00"), Need::Bad);
    let mut h = b"HCX3\x00\x00\x00\x00".to_vec();
    h.extend_from_slice(&[1, 1, 0, 0]);
    assert_eq!(header_need(&h), Need::Bad);
    h[9] = 0;
    assert_eq!(header_need(&h), Need::More(1));
}
