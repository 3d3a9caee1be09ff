use huffman::bits::{pack_bits, unpack_bits};
use huffman::code::derive_codes;
use huffman::container::{decode, encode};
use huffman::error::CodecError;
use huffman::header::{read_header, write_tree};
use huffman::huffman::Huffman;
use huffman::tree::{build_tree, count_frequencies, Node};

fn le8(x: u64) -> Vec<u8> {
    x.to_le_bytes().to_vec()
}

#[test]
fn compress_huff() {
    let mut h = Huffman::from_input("Hello".to_owned()).unwrap();
    h.compress();

    assert_eq!(h.get_compressed(), vec![0, 0, 0, 1, 1, 1, 1, 1, 1, 0]);
}

#[test]
fn decompress_huff() {
    let h = Huffman::from_input("Hello".to_owned()).unwrap();

    let out = h.decompress(vec![0, 0, 0, 1, 1, 1, 1, 1, 1, 0]).unwrap();
    assert_eq!(String::from_utf8(out).unwrap(), "Hello");
}

#[test]
fn from_input_empty_is_rejected() {
    assert!(matches!(Huffman::from_input(String::new()), Err(CodecError::EmptyInput)));
}

#[test]
fn decompress_incomplete_code() {
    let h = Huffman::from_input("Hello".to_owned()).unwrap();
    assert_eq!(h.decompress(vec![0, 0, 0]), Err(CodecError::TruncatedPayload));
}

#[test]
fn frequencies_in_first_seen_order() {
    let t = count_frequencies(&b"Hello".to_vec());
    assert_eq!(t, vec![(b'H', 1), (b'e', 1), (b'l', 2), (b'o', 1)]);
}

#[test]
fn frequencies_of_empty_input() {
    assert_eq!(count_frequencies(&Vec::new()), Vec::<(u8, usize)>::new());
}

#[test]
fn build_tree_of_empty_table() {
    assert!(matches!(build_tree(&Vec::new()), Err(CodecError::EmptyInput)));
}

fn check_weights(n: &Node) -> usize {
    match n {
        Node::Leaf { weight, .. } => {
            assert!(*weight > 0);
            *weight
        }
        Node::Internal { left, right, weight } => {
            let w = check_weights(left) + check_weights(right);
            assert_eq!(*weight, w);
            w
        }
    }
}

#[test]
fn tree_weights_add_up() {
    let input = b"abracadabra, a banana bandana".to_vec();
    let t = build_tree(&count_frequencies(&input)).unwrap();
    assert_eq!(check_weights(&t), input.len());
    assert_eq!(t.weight(), input.len());
}

#[test]
fn hello_codes() {
    let t = build_tree(&count_frequencies(&b"Hello".to_vec())).unwrap();
    let codes = derive_codes(&t);
    let expected: Vec<(u8, Vec<bool>)> = vec![
        (b'H', vec![false, false]),
        (b'e', vec![false, true]),
        (b'o', vec![true, false]),
        (b'l', vec![true, true]),
    ];
    assert_eq!(codes.entries, expected);
}

#[test]
fn codes_are_prefix_free() {
    let input: Vec<u8> = b"the quick brown fox jumps over the lazy dog".to_vec();
    let t = build_tree(&count_frequencies(&input)).unwrap();
    let codes = derive_codes(&t).entries;
    for (i, (_, a)) in codes.iter().enumerate() {
        for (j, (_, b)) in codes.iter().enumerate() {
            if i != j {
                assert!(!(a.len() <= b.len() && b[..a.len()] == a[..]));
            }
        }
    }
}

#[test]
fn single_symbol_code_is_zero() {
    let t = build_tree(&count_frequencies(&b"aaaa".to_vec())).unwrap();
    let codes = derive_codes(&t);
    assert_eq!(codes.entries, vec![(b'a', vec![false])]);
    let c = encode(&b"aaaa".to_vec());
    let mut expected = le8(2);
    expected.extend_from_slice(&[1, b'a']);
    expected.extend(le8(4));
    expected.push(0x00);
    assert_eq!(c, expected);
    assert_eq!(decode(&c).unwrap(), b"aaaa".to_vec());
}

#[test]
fn hello_container_golden() {
    let c = encode(&b"Hello".to_vec());
    let mut expected = le8(11);
    expected.extend_from_slice(&[0, 0, 1, b'H', 1, b'e', 0, 1, b'o', 1, b'l']);
    expected.extend(le8(10));
    expected.extend_from_slice(&[0x1F, 0x80]);
    assert_eq!(c, expected);
}

#[test]
fn round_trip_samples() {
    let mut all: Vec<u8> = (0..=255u8).collect();
    all.extend((0..=255u8).rev());
    let samples: Vec<Vec<u8>> = vec![
        b"Hello".to_vec(),
        b"a".to_vec(),
        b"aaaa".to_vec(),
        b"abracadabra".to_vec(),
        (0..=255u8).collect(),
        all,
        vec![0u8; 1000],
    ];
    for s in samples {
        assert_eq!(decode(&encode(&s)).unwrap(), s);
    }
}

#[test]
fn empty_input_round_trip() {
    let c = encode(&Vec::new());
    assert!(c.is_empty());
    assert_eq!(decode(&c).unwrap(), Vec::<u8>::new());
}

#[test]
fn encoding_is_deterministic() {
    let s = b"mississippi river".to_vec();
    assert_eq!(encode(&s), encode(&s));
}

#[test]
fn truncated_container_is_rejected() {
    for s in [b"Hello".to_vec(), b"a".to_vec(), b"abcdefgh".to_vec()] {
        let mut c = encode(&s);
        c.pop();
        assert_eq!(decode(&c), Err(CodecError::TruncatedPayload));
    }
}

#[test]
fn short_container_lacks_length() {
    assert_eq!(decode(&vec![1, 2, 3]), Err(CodecError::MissingLength));
    let mut c = le8(2);
    c.extend_from_slice(&[1, b'a', 4, 0]);
    assert_eq!(decode(&c), Err(CodecError::MissingLength));
}

#[test]
fn malformed_headers_are_rejected() {
    let mut bad_marker = le8(2);
    bad_marker.extend_from_slice(&[7, b'a']);
    bad_marker.extend(le8(1));
    bad_marker.push(0);
    assert_eq!(decode(&bad_marker), Err(CodecError::MalformedTree));

    let mut too_long = le8(100);
    too_long.extend_from_slice(&[1, b'a']);
    assert_eq!(decode(&too_long), Err(CodecError::MalformedTree));

    let mut incomplete = le8(3);
    incomplete.extend_from_slice(&[0, 1, b'a']);
    incomplete.extend(le8(1));
    incomplete.push(0);
    assert_eq!(decode(&incomplete), Err(CodecError::MalformedTree));
}

#[test]
fn payload_not_whole_codes() {
    let mut c = le8(2);
    c.extend_from_slice(&[1, b'a']);
    c.extend(le8(1));
    c.push(0x80);
    assert_eq!(decode(&c), Err(CodecError::TruncatedPayload));
}

#[test]
fn header_round_trip() {
    let t = build_tree(&count_frequencies(&b"Hello".to_vec())).unwrap();
    let mut h = Vec::new();
    write_tree(&t, &mut h);
    assert_eq!(h, vec![0, 0, 1, b'H', 1, b'e', 0, 1, b'o', 1, b'l']);
    let back = read_header(&h).unwrap();
    let mut h2 = Vec::new();
    write_tree(&back, &mut h2);
    assert_eq!(h2, h);
    assert!(read_header(&vec![0, 1, b'a']).is_none());
    assert!(read_header(&vec![1, b'a', 1]).is_none());
}

#[test]
fn packing_msb_first() {
    let bits = vec![true, false, false, false, false, false, false, true, true, true];
    let bytes = pack_bits(&bits);
    assert_eq!(bytes, vec![0x81, 0xC0]);
    assert_eq!(unpack_bits(&bytes, 10), bits);
    assert_eq!(unpack_bits(&vec![0x5A], 8), vec![false, true, false, true, true, false, true, false]);
}
