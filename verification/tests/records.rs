use hashtree::hash::verify;
use hashtree::layout::{encoded_subtree_len, left_subregion_len};
use hashtree::node::{Node, Region};
use hashtree::simple::encode;
use hashtree::unverified::Unverified;
use hashtree::{Digest, Error, CHUNK_SIZE, DIGEST_SIZE, HEADER_SIZE, NODE_SIZE};

fn blake2b_256(input: &[u8]) -> Digest {
    let mut digest = [0u8; DIGEST_SIZE];
    let found = blake2b_simd::Params::new().hash_length(32).hash(input);
    digest.copy_from_slice(found.as_bytes());
    digest
}

fn hex(bytes: &[u8]) -> String {
    let mut text = String::new();
    for byte in bytes {
        text.push_str(&format!("{:02x}", byte));
    }
    text
}

fn region(start: u64, end: u64, encoded_offset: u64) -> Region {
    Region { start, end, encoded_offset, hash: [7u8; DIGEST_SIZE] }
}

#[test]
fn constants_fit_together() {
    assert_eq!(CHUNK_SIZE, 4096);
    assert_eq!(DIGEST_SIZE, 32);
    assert_eq!(NODE_SIZE, 64);
    assert_eq!(HEADER_SIZE, 40);
}

#[test]
fn encoding_of_nothing_is_a_header() {
    let (encoded, hash) = encode(&[]);
    assert_eq!(encoded.len(), HEADER_SIZE);
    assert_eq!(&encoded[..8], &[0u8; 8]);
    // BLAKE2b-256 of the empty input.
    assert_eq!(
        hex(&encoded[8..]),
        "0e5751c026e543b2e8ab2eb06099daa1d1e5df47778f7787faab45cdf12fe3a8"
    );
    assert_eq!(hash, blake2b_256(&encoded));
}

#[test]
fn encoding_of_one_chunk() {
    let content: Vec<u8> = (0..1000u32).map(|i| (i % 251) as u8).collect();
    let (encoded, hash) = encode(&content);
    assert_eq!(encoded.len(), HEADER_SIZE + 1000);
    assert_eq!(&encoded[..8], &[0xe8, 0x03, 0, 0, 0, 0, 0, 0]);
    assert_eq!(&encoded[8..HEADER_SIZE], &blake2b_256(&content));
    assert_eq!(&encoded[HEADER_SIZE..], &content[..]);
    assert_eq!(hash, blake2b_256(&encoded[..HEADER_SIZE]));
}

#[test]
fn encoding_of_three_chunks() {
    let content: Vec<u8> = (0..2 * CHUNK_SIZE + 5).map(|i| (i % 253) as u8).collect();
    let (encoded, hash) = encode(&content);
    assert_eq!(encoded.len(), HEADER_SIZE + 2 * NODE_SIZE + content.len());

    // The root splits into two whole chunks and the five bytes behind them.
    let left_node_at = HEADER_SIZE + NODE_SIZE;
    let first_chunk_at = left_node_at + NODE_SIZE;
    let second_chunk_at = first_chunk_at + CHUNK_SIZE;
    let last_chunk_at = second_chunk_at + CHUNK_SIZE;
    assert_eq!(&encoded[first_chunk_at..second_chunk_at], &content[..CHUNK_SIZE]);
    assert_eq!(&encoded[second_chunk_at..last_chunk_at], &content[CHUNK_SIZE..2 * CHUNK_SIZE]);
    assert_eq!(&encoded[last_chunk_at..], &content[2 * CHUNK_SIZE..]);

    let left_node = &encoded[left_node_at..first_chunk_at];
    assert_eq!(&left_node[..DIGEST_SIZE], &blake2b_256(&content[..CHUNK_SIZE]));
    assert_eq!(&left_node[DIGEST_SIZE..], &blake2b_256(&content[CHUNK_SIZE..2 * CHUNK_SIZE]));

    let root_node = &encoded[HEADER_SIZE..left_node_at];
    assert_eq!(&root_node[..DIGEST_SIZE], &blake2b_256(left_node));
    assert_eq!(&root_node[DIGEST_SIZE..], &blake2b_256(&content[2 * CHUNK_SIZE..]));

    assert_eq!(&encoded[8..HEADER_SIZE], &blake2b_256(root_node));
    assert_eq!(hash, blake2b_256(&encoded[..HEADER_SIZE]));
}

#[test]
fn left_subregion_is_a_power_of_two_of_chunks() {
    let chunk = CHUNK_SIZE as u64;
    assert_eq!(left_subregion_len(chunk + 1), chunk);
    assert_eq!(left_subregion_len(2 * chunk), chunk);
    assert_eq!(left_subregion_len(2 * chunk + 1), 2 * chunk);
    assert_eq!(left_subregion_len(3 * chunk), 2 * chunk);
    assert_eq!(left_subregion_len(4 * chunk), 2 * chunk);
    assert_eq!(left_subregion_len(4 * chunk + 1), 4 * chunk);
    assert_eq!(left_subregion_len(16 * chunk), 8 * chunk);
    assert_eq!(left_subregion_len(16 * chunk + 1), 16 * chunk);
    assert_eq!(left_subregion_len(u64::MAX), 1 << 63);
}

#[test]
fn encoded_length_counts_one_node_per_chunk_but_the_first() {
    let chunk = CHUNK_SIZE as u64;
    let node = NODE_SIZE as u64;
    assert_eq!(encoded_subtree_len(0), Some(0));
    assert_eq!(encoded_subtree_len(1), Some(1));
    assert_eq!(encoded_subtree_len(chunk), Some(chunk));
    assert_eq!(encoded_subtree_len(chunk + 1), Some(chunk + 1 + node));
    assert_eq!(encoded_subtree_len(2 * chunk), Some(2 * chunk + node));
    assert_eq!(encoded_subtree_len(16 * chunk + 1), Some(16 * chunk + 1 + 16 * node));
    assert_eq!(encoded_subtree_len(u64::MAX), None);
}

#[test]
fn encoded_length_is_the_length_of_the_encoding() {
    for len in [0, 1, CHUNK_SIZE, CHUNK_SIZE + 1, 5 * CHUNK_SIZE - 1, 8 * CHUNK_SIZE + 17] {
        let (encoded, _) = encode(&vec![3u8; len]);
        assert_eq!(
            Some((encoded.len() - HEADER_SIZE) as u64),
            encoded_subtree_len(len as u64)
        );
    }
}

#[test]
fn region_len_and_contains() {
    let r = region(10, 25, 0);
    assert_eq!(r.len(), 15);
    assert!(!r.contains(9));
    assert!(r.contains(10));
    assert!(r.contains(24));
    assert!(!r.contains(25));
    let empty = region(4, 4, 0);
    assert_eq!(empty.len(), 0);
    assert!(!empty.contains(4));
}

#[test]
fn node_contains_what_its_children_contain() {
    let node = Node { left: region(8, 16, 0), right: region(16, 20, 0) };
    assert!(!node.contains(7));
    assert!(node.contains(8));
    assert!(node.contains(16));
    assert!(node.contains(19));
    assert!(!node.contains(20));
}

#[test]
fn header_bytes_give_the_root_region() {
    let mut header = vec![0u8; HEADER_SIZE];
    header[0] = 0x01;
    header[1] = 0x02;
    header[7] = 0x80;
    for i in 8..HEADER_SIZE {
        header[i] = i as u8;
    }
    let root = Region::from_header_bytes(&header);
    assert_eq!(root.start, 0);
    assert_eq!(root.end, 0x8000_0000_0000_0201);
    assert_eq!(root.encoded_offset, HEADER_SIZE as u64);
    let expected: Vec<u8> = (8..HEADER_SIZE as u8).collect();
    assert_eq!(&root.hash[..], &expected[..]);
}

#[test]
fn node_record_gives_two_children() {
    let chunk = CHUNK_SIZE as u64;
    let mut record = vec![1u8; NODE_SIZE];
    for i in DIGEST_SIZE..NODE_SIZE {
        record[i] = 2;
    }
    let parent = region(8 * chunk, 11 * chunk + 9, 1000);
    let node = parent.parse_node(&record).unwrap();
    assert_eq!(
        node.left,
        Region {
            start: 8 * chunk,
            end: 10 * chunk,
            encoded_offset: 1000 + NODE_SIZE as u64,
            hash: [1u8; DIGEST_SIZE],
        }
    );
    assert_eq!(
        node.right,
        Region {
            start: 10 * chunk,
            end: 11 * chunk + 9,
            encoded_offset: 1000 + 2 * NODE_SIZE as u64 + 2 * chunk,
            hash: [2u8; DIGEST_SIZE],
        }
    );
}

#[test]
fn node_record_of_wrong_length_is_malformed() {
    let parent = region(0, 3 * CHUNK_SIZE as u64, HEADER_SIZE as u64);
    assert_eq!(parent.parse_node(&[0u8; NODE_SIZE - 1]), Err(Error::MalformedNode));
    assert_eq!(parent.parse_node(&[0u8; NODE_SIZE + 1]), Err(Error::MalformedNode));
    assert_eq!(parent.parse_node(&[]), Err(Error::MalformedNode));
    assert!(parent.parse_node(&[0u8; NODE_SIZE]).is_ok());
}

#[test]
fn leaf_has_no_node_record() {
    let record = [0u8; NODE_SIZE];
    assert_eq!(region(0, CHUNK_SIZE as u64, 40).parse_node(&record), Err(Error::MalformedNode));
    assert_eq!(region(5, 5, 40).parse_node(&record), Err(Error::MalformedNode));
    assert_eq!(region(9, 3, 40).parse_node(&record), Err(Error::MalformedNode));
    assert!(region(0, CHUNK_SIZE as u64 + 1, 40).parse_node(&record).is_ok());
}

#[test]
fn region_whose_encoding_ends_behind_the_last_offset_is_malformed() {
    let record = [0u8; NODE_SIZE];
    let chunk = CHUNK_SIZE as u64;
    assert_eq!(region(0, u64::MAX, 40).parse_node(&record), Err(Error::MalformedNode));
    // Two chunks take two chunks and one node record.
    let needs = 2 * chunk + NODE_SIZE as u64;
    assert!(region(0, 2 * chunk, u64::MAX - needs).parse_node(&record).is_ok());
    assert_eq!(
        region(0, 2 * chunk, u64::MAX - needs + 1).parse_node(&record),
        Err(Error::MalformedNode)
    );
}

#[test]
fn verify_tells_the_digest_of_the_input_from_others() {
    let input = b"some bytes";
    let good = blake2b_256(input);
    assert!(verify(input, &good));
    let mut bad = good;
    bad[31] ^= 1;
    assert!(!verify(input, &bad));
    assert!(!verify(b"some bytez", &good));
    // The digest is not the input handed back.
    assert!(!verify(&good, &good));
}

#[test]
fn unverified_gives_bytes_only_with_their_digest() {
    let bytes = b"0123456789";
    let mut input = Unverified::wrap(bytes);
    assert_eq!(input.len(), 10);

    assert_eq!(input.read_verify(11, &blake2b_256(bytes)), Err(Error::ShortInput));
    assert_eq!(input.len(), 10);

    assert_eq!(input.read_verify(4, &blake2b_256(b"0124")), Err(Error::HashMismatch));
    assert_eq!(input.len(), 10);

    assert_eq!(input.read_verify(4, &blake2b_256(b"0123")), Ok(&b"0123"[..]));
    assert_eq!(input.len(), 6);

    assert_eq!(input.read_verify(6, &blake2b_256(b"456789")), Ok(&b"456789"[..]));
    assert_eq!(input.len(), 0);

    assert_eq!(input.read_verify(0, &blake2b_256(b"")), Ok(&b""[..]));
    assert_eq!(input.read_verify(1, &blake2b_256(b"")), Err(Error::ShortInput));
}
