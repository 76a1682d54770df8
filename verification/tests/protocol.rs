use hashtree::decoder::{Decoder, State};
use hashtree::simple::encode;
use hashtree::stream::decode;
use hashtree::{Digest, Error, CHUNK_SIZE, DIGEST_SIZE, HEADER_SIZE, NODE_SIZE};
use rand::Rng;

fn blake2b_256(input: &[u8]) -> Digest {
    let mut digest = [0u8; DIGEST_SIZE];
    let found = blake2b_simd::Params::new().hash_length(32).hash(input);
    digest.copy_from_slice(found.as_bytes());
    digest
}

fn random_bytes(len: usize) -> Vec<u8> {
    rand::ChaChaRng::new_unseeded().gen_iter().take(len).collect()
}

/// Feeds the decoder what it asks for until it needs nothing or a call
/// fails. Returns what was handed out and the error, if any.
fn drive(decoder: &mut Decoder, encoded: &[u8]) -> (Vec<u8>, Option<Error>) {
    let mut output = Vec::new();
    loop {
        let (offset, len) = decoder.needed();
        if len == 0 {
            return (output, None);
        }
        let from = std::cmp::min(offset as usize, encoded.len());
        let to = std::cmp::min(offset as usize + len, encoded.len());
        match decoder.feed(&encoded[from..to]) {
            Ok((consumed, maybe_output)) => {
                assert_eq!(consumed, len);
                if let Some(bytes) = maybe_output {
                    output.extend_from_slice(bytes);
                }
            }
            Err(e) => return (output, Some(e)),
        }
    }
}

#[test]
fn fresh_decoder_needs_the_header() {
    let decoder = Decoder::new(&[0u8; DIGEST_SIZE]);
    assert_eq!(decoder.needed(), (0, HEADER_SIZE));
    assert_eq!(decoder.len(), None);
    assert!(matches!(decoder.state(), State::NoHeader));
}

#[test]
fn header_gives_the_length() {
    let content = random_bytes(3 * CHUNK_SIZE + 7);
    let (encoded, hash) = encode(&content);
    let mut decoder = Decoder::new(&hash);
    assert_eq!(decoder.feed(&encoded[..HEADER_SIZE]), Ok((HEADER_SIZE, None)));
    assert_eq!(decoder.len(), Some(content.len() as u64));
    assert_eq!(decoder.needed(), (HEADER_SIZE as u64, NODE_SIZE));
    assert!(matches!(decoder.state(), State::Node(_)));
}

#[test]
fn empty_content_ends_behind_the_header() {
    let (encoded, hash) = encode(&[]);
    let mut decoder = Decoder::new(&hash);
    assert_eq!(decoder.feed(&encoded), Ok((HEADER_SIZE, None)));
    assert_eq!(decoder.len(), Some(0));
    assert_eq!(decoder.needed(), (0, 0));
    assert!(matches!(decoder.state(), State::Eof));
    assert_eq!(decoder.feed(&encoded), Ok((0, None)));
    assert_eq!(decoder.feed(&[]), Ok((0, None)));
}

#[test]
fn short_feed_changes_nothing() {
    let content = random_bytes(2 * CHUNK_SIZE + 100);
    let (encoded, hash) = encode(&content);
    let mut decoder = Decoder::new(&hash);
    let mut output = Vec::new();
    loop {
        let (offset, len) = decoder.needed();
        if len == 0 {
            break;
        }
        let offset = offset as usize;
        for short in [0, 1, len / 2, len - 1] {
            assert_eq!(
                decoder.feed(&encoded[offset..offset + short]),
                Err(Error::ShortInput)
            );
            assert_eq!(decoder.needed(), (offset as u64, len));
        }
        let (consumed, maybe_output) = decoder.feed(&encoded[offset..offset + len]).unwrap();
        assert_eq!(consumed, len);
        if let Some(bytes) = maybe_output {
            output.extend_from_slice(bytes);
        }
    }
    assert_eq!(content, output);
}

#[test]
fn overfeed_consumes_what_was_needed() {
    let content = random_bytes(5 * CHUNK_SIZE + 1);
    let (encoded, hash) = encode(&content);
    let mut decoder = Decoder::new(&hash);
    let mut output = Vec::new();
    let mut at = 0;
    loop {
        let (offset, len) = decoder.needed();
        let (consumed, maybe_output) = decoder.feed(&encoded[at..]).unwrap();
        assert_eq!(consumed, len);
        if consumed == 0 {
            break;
        }
        assert_eq!(offset as usize, at);
        if let Some(bytes) = maybe_output {
            output.extend_from_slice(bytes);
        }
        at += consumed;
    }
    assert_eq!(at, encoded.len());
    assert_eq!(content, output);
}

#[test]
fn wrong_header_digest_is_a_mismatch() {
    let (encoded, hash) = encode(&random_bytes(100));
    let mut wrong = hash;
    wrong[0] ^= 0x80;
    let mut decoder = Decoder::new(&wrong);
    assert_eq!(decoder.feed(&encoded), Err(Error::HashMismatch));
    assert_eq!(decoder.needed(), (0, HEADER_SIZE));
    assert_eq!(decoder.len(), None);
}

#[test]
fn changed_byte_stops_the_decoder_at_its_record() {
    let content = random_bytes(2 * CHUNK_SIZE + 50);
    let (encoded, hash) = encode(&content);
    // Offsets at which the three chunks begin in the stream.
    let first_chunk_at = HEADER_SIZE + 2 * NODE_SIZE;
    let second_chunk_at = first_chunk_at + CHUNK_SIZE;
    let third_chunk_at = second_chunk_at + CHUNK_SIZE;
    let mut at = 0;
    while at < encoded.len() {
        let mut tampered = encoded.clone();
        tampered[at] ^= 0x01;
        let mut decoder = Decoder::new(&hash);
        let (output, error) = drive(&mut decoder, &tampered);
        assert_eq!(error, Some(Error::HashMismatch));
        let whole_chunks_before = if at < second_chunk_at {
            0
        } else if at < third_chunk_at {
            CHUNK_SIZE
        } else {
            2 * CHUNK_SIZE
        };
        assert_eq!(&output[..], &content[..whole_chunks_before]);
        // The decoder stays at the record that failed.
        let (offset, len) = decoder.needed();
        assert!(offset as usize <= at && at < offset as usize + len);
        assert_eq!(decoder.feed(&encoded[offset as usize..]).map(|fed| fed.0), Ok(len));
        at += 13;
    }
}

#[test]
fn header_with_a_length_too_large_to_encode_is_malformed_at_the_root() {
    let mut stream = Vec::new();
    let root_record = [9u8; NODE_SIZE];
    stream.extend_from_slice(&u64::MAX.to_le_bytes());
    stream.extend_from_slice(&blake2b_256(&root_record));
    let hash = blake2b_256(&stream);
    stream.extend_from_slice(&root_record);

    let mut decoder = Decoder::new(&hash);
    assert_eq!(decoder.feed(&stream), Ok((HEADER_SIZE, None)));
    assert_eq!(decoder.len(), Some(u64::MAX));
    assert_eq!(decoder.needed(), (HEADER_SIZE as u64, NODE_SIZE));
    assert_eq!(decoder.feed(&stream[HEADER_SIZE..]), Err(Error::MalformedNode));
    assert_eq!(decoder.needed(), (HEADER_SIZE as u64, NODE_SIZE));
    assert_eq!(decoder.feed(&stream[HEADER_SIZE..HEADER_SIZE + 10]), Err(Error::ShortInput));
    let mut wrong = stream[HEADER_SIZE..].to_vec();
    wrong[63] = 0;
    assert_eq!(decoder.feed(&wrong), Err(Error::HashMismatch));
}

#[test]
fn seek_into_a_chunk_hands_out_its_tail() {
    let content = random_bytes(3 * CHUNK_SIZE);
    let (encoded, hash) = encode(&content);
    let mut decoder = Decoder::new(&hash);
    decoder.seek(CHUNK_SIZE as u64 + 100);
    assert_eq!(decoder.needed(), (0, HEADER_SIZE));
    let mut fed = Vec::new();
    loop {
        let (offset, len) = decoder.needed();
        let (consumed, maybe_output) = decoder
            .feed(&encoded[offset as usize..offset as usize + len])
            .unwrap();
        fed.push((offset as usize, consumed));
        if let Some(bytes) = maybe_output {
            // The whole chunk was consumed, and its tail handed out.
            assert_eq!(consumed, CHUNK_SIZE);
            assert_eq!(bytes, &content[CHUNK_SIZE + 100..2 * CHUNK_SIZE]);
            break;
        }
    }
    let root_node_at = HEADER_SIZE;
    let left_node_at = root_node_at + NODE_SIZE;
    let second_chunk_at = left_node_at + NODE_SIZE + CHUNK_SIZE;
    assert_eq!(
        fed,
        vec![
            (0, HEADER_SIZE),
            (root_node_at, NODE_SIZE),
            (left_node_at, NODE_SIZE),
            (second_chunk_at, CHUNK_SIZE),
        ]
    );
    assert_eq!(
        decoder.needed(),
        ((second_chunk_at + CHUNK_SIZE) as u64, CHUNK_SIZE)
    );
}

#[test]
fn seek_to_the_end_and_behind_it_needs_nothing() {
    let content = random_bytes(2 * CHUNK_SIZE);
    let (encoded, hash) = encode(&content);
    let mut decoder = Decoder::new(&hash);
    decoder.feed(&encoded).unwrap();
    decoder.seek(content.len() as u64);
    assert_eq!(decoder.needed(), (0, 0));
    assert_eq!(decoder.feed(&encoded), Ok((0, None)));
    decoder.seek(u64::MAX);
    assert_eq!(decoder.needed(), (0, 0));
    decoder.seek(content.len() as u64 - 1);
    let (output, error) = drive(&mut decoder, &encoded);
    assert_eq!(error, None);
    assert_eq!(&output[..], &content[content.len() - 1..]);
}

#[test]
fn seek_keeps_the_nodes_that_contain_the_position() {
    let content = random_bytes(4 * CHUNK_SIZE);
    let (encoded, hash) = encode(&content);
    let root_node_at = HEADER_SIZE;
    let left_node_at = root_node_at + NODE_SIZE;
    let first_chunk_at = left_node_at + NODE_SIZE;
    let right_node_at = first_chunk_at + 2 * CHUNK_SIZE;

    let mut decoder = Decoder::new(&hash);
    // Header, root node, left node, first chunk.
    for _ in 0..4 {
        let (offset, len) = decoder.needed();
        decoder
            .feed(&encoded[offset as usize..offset as usize + len])
            .unwrap();
    }
    assert_eq!(
        decoder.needed(),
        ((first_chunk_at + CHUNK_SIZE) as u64, CHUNK_SIZE)
    );

    // Back within the left half: both nodes stay, the chunk is read at once.
    decoder.seek(5);
    assert_eq!(decoder.needed(), (first_chunk_at as u64, CHUNK_SIZE));

    // Over to the right half: the left node leaves, the root node stays.
    decoder.seek(3 * CHUNK_SIZE as u64);
    assert_eq!(decoder.needed(), (right_node_at as u64, NODE_SIZE));

    // Behind the end nothing leaves the stack, and nothing is needed.
    decoder.seek(4 * CHUNK_SIZE as u64);
    assert_eq!(decoder.needed(), (0, 0));

    // Back to the start: the root node is still there.
    decoder.seek(0);
    assert_eq!(decoder.needed(), (left_node_at as u64, NODE_SIZE));
    let (output, error) = drive(&mut decoder, &encoded);
    assert_eq!(error, None);
    assert_eq!(output, content);
}

#[test]
fn seeks_and_feeds_in_any_order_keep_the_position_in_the_region_read() {
    let content = random_bytes(9 * CHUNK_SIZE + 321);
    let (encoded, hash) = encode(&content);
    let mut rng = rand::ChaChaRng::new_unseeded();
    let mut decoder = Decoder::new(&hash);
    let mut position: usize = 0;
    for _ in 0..2000 {
        if rng.gen_weighted_bool(4) {
            position = rng.gen_range(0, content.len() + 2);
            decoder.seek(position as u64);
        } else {
            let (offset, len) = decoder.needed();
            let fed = decoder
                .feed(&encoded[offset as usize..offset as usize + len])
                .unwrap();
            assert_eq!(fed.0, len);
            match decoder.state() {
                State::NoHeader => panic!("the header was read"),
                State::Eof => assert!(position >= content.len() || fed.1.is_some()),
                State::Chunk(region) | State::Node(region) => {
                    let at = if let Some(bytes) = fed.1 {
                        position + bytes.len()
                    } else {
                        position
                    };
                    assert!(region.contains(at as u64));
                }
            }
            if let Some(bytes) = fed.1 {
                assert!(!bytes.is_empty());
                assert_eq!(bytes, &content[position..position + bytes.len()]);
                position += bytes.len();
                assert!(position == content.len() || position % CHUNK_SIZE == 0);
            }
        }
    }
}

#[test]
fn clone_goes_its_own_way() {
    let content = random_bytes(3 * CHUNK_SIZE + 1);
    let (encoded, hash) = encode(&content);
    let mut decoder = Decoder::new(&hash);
    for _ in 0..3 {
        let (offset, len) = decoder.needed();
        decoder
            .feed(&encoded[offset as usize..offset as usize + len])
            .unwrap();
    }
    let mut copy = decoder.clone();
    assert_eq!(copy.needed(), decoder.needed());
    assert_eq!(copy.len(), decoder.len());
    copy.seek(2 * CHUNK_SIZE as u64 + 1);
    let (tail, error) = drive(&mut copy, &encoded);
    assert_eq!(error, None);
    assert_eq!(&tail[..], &content[2 * CHUNK_SIZE + 1..]);
    let (all, error) = drive(&mut decoder, &encoded);
    assert_eq!(error, None);
    assert_eq!(all, content);
}

#[test]
fn truncated_stream_is_short_input() {
    let content = random_bytes(2 * CHUNK_SIZE);
    let (encoded, hash) = encode(&content);
    let mut decoder = Decoder::new(&hash);
    let (output, error) = drive(&mut decoder, &encoded[..encoded.len() - 1]);
    assert_eq!(error, Some(Error::ShortInput));
    assert_eq!(&output[..], &content[..CHUNK_SIZE]);
}

#[test]
fn decode_gives_back_what_was_encoded() {
    for len in [0, 1, CHUNK_SIZE, CHUNK_SIZE + 1, 7 * CHUNK_SIZE + 2, 16 * CHUNK_SIZE] {
        let content = random_bytes(len);
        let (encoded, hash) = encode(&content);
        assert_eq!(decode(&encoded, &hash), Ok(content));
    }
}

#[test]
fn decode_stops_at_the_first_error() {
    let content = random_bytes(3 * CHUNK_SIZE);
    let (encoded, hash) = encode(&content);

    assert_eq!(decode(&encoded[..encoded.len() - 1], &hash), Err(Error::ShortInput));
    assert_eq!(decode(&encoded[..HEADER_SIZE - 1], &hash), Err(Error::ShortInput));
    assert_eq!(decode(&[], &hash), Err(Error::ShortInput));

    let mut tampered = encoded.clone();
    tampered[HEADER_SIZE + 2 * NODE_SIZE + 17] ^= 0x40;
    assert_eq!(decode(&tampered, &hash), Err(Error::HashMismatch));

    let mut wrong = hash;
    wrong[5] ^= 1;
    assert_eq!(decode(&encoded, &wrong), Err(Error::HashMismatch));

    // Bytes behind the end of the encoding are never asked for.
    let mut longer = encoded.clone();
    longer.extend_from_slice(b"and more");
    assert_eq!(decode(&longer, &hash), Ok(content));
}

#[test]
fn decode_meets_a_malformed_root() {
    let mut stream = Vec::new();
    let root_record = [3u8; NODE_SIZE];
    stream.extend_from_slice(&(u64::MAX - 50).to_le_bytes());
    stream.extend_from_slice(&blake2b_256(&root_record));
    let hash = blake2b_256(&stream);
    stream.extend_from_slice(&root_record);
    assert_eq!(decode(&stream, &hash), Err(Error::MalformedNode));
}
