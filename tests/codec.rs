use frequency_tree_compression::bitvec::BitVec;
use frequency_tree_compression::symbol::BinaryCodable;
use frequency_tree_compression::coding::{DecodingTree, EncodingTree};
use frequency_tree_compression::tree::{DecodingError, Encoding, NodeDeserializationError};
use frequency_tree_compression::{compress, decompress, DecompressionError};
use rand::rngs::StdRng;
use rand::{Rng, SeedableRng};

fn chars(text: &str) -> Vec<char> {
    text.chars().collect()
}

fn round_trip(text: &str) -> String {
    let compressed = compress(&chars(text));
    decompress::<char>(&compressed).unwrap().iter().collect()
}

#[test]
fn check_encoding() {
    let mut rng = StdRng::seed_from_u64(0);

    for _ in 0..100 {
        let mut enc = Encoding::new_zeroed();

        for _ in 0..8 {
            if rng.gen_bool(0.5) {
                enc = enc.step_left();
            } else {
                enc = enc.step_right()
            }
        }

        let v = enc.as_bits();
        let mut expected: Vec<bool> = Vec::new();
        let mut it = enc.iter_bits();
        while let Some(b) = it.next() {
            expected.push(b);
        }

        assert_eq!(*v.to_bool_slice(), expected);
    }
}

#[test]
fn small_coherency() {
    let text = "He";

    let (encoder, compressed) = EncodingTree::encode(&chars(text));

    let decoded = encoder
        .into_decoder()
        .unwrap()
        .decode(&compressed.as_bit_view())
        .unwrap()
        .iter()
        .collect::<String>();

    assert_eq!(text, decoded);
}

#[test]
fn encoding_steps_are_left_zero_right_one() {
    assert_eq!(Encoding::new().len_bits(), 0);
    let e = Encoding::new_zeroed().step_right().step_left().step_right();
    assert_eq!(e.len_bits(), 3);
    assert_eq!(e.as_bits().to_bool_slice(), vec![true, false, true]);
}

#[test]
fn single_symbol_input() {
    let compressed = compress(&chars("aaaa"));
    // One leaf; the bit section holds the count, 4, as 64 bits.
    assert_eq!(compressed, vec![0, 0x61, 0, 0, 0, 0, 0, 0, 0, 0, 0, 0, 0, 4]);
    assert_eq!(round_trip("aaaa"), "aaaa");
    assert_eq!(round_trip("a"), "a");

    // The code of the only symbol has no bits: the tree alone decodes no bits to it.
    let (encoder, bits) = EncodingTree::encode(&chars("aaaa"));
    assert_eq!(bits.len_bits(), 0);
    let decoder = encoder.into_decoder().unwrap();
    assert_eq!(decoder.decode(&bits.as_bit_view()).unwrap(), vec!['a']);
    let one_bit = BitVec::from_bool_slice(&[false]);
    assert_eq!(decoder.decode(&one_bit.as_bit_view()), Err(DecodingError::InvalidEncoding));
}

#[test]
fn two_symbol_input() {
    let compressed = compress(&chars("ab"));
    // parent tag, leaf 'a', leaf 'b', padding 6, data 01......
    assert_eq!(compressed, vec![1, 0, 0x61, 0, 0, 0, 0, 0x62, 0, 0, 0, 6, 0x40]);
    assert_eq!(compressed.len(), 1 + 2 * 5 + 1 + 1);
    assert_eq!(round_trip("ab"), "ab");
}

#[test]
fn empty_input() {
    let compressed = compress::<char>(&[]);
    assert!(compressed.is_empty());
    assert_eq!(decompress::<char>(&compressed).unwrap(), Vec::<char>::new());
    let (encoder, bits) = EncodingTree::<char>::encode(&[]);
    assert_eq!(encoder.leaf_node_count(), 0);
    assert_eq!(encoder.parent_node_count(), 0);
    assert_eq!(bits.len_bits(), 0);
    assert!(encoder.into_decoder().is_none());
}

#[test]
fn lone_leaf_tag_is_a_malformed_tree() {
    assert_eq!(
        decompress::<char>(&[0x00]),
        Err(DecompressionError::InvalidDecodingTree(NodeDeserializationError::MissingNodeUnitData))
    );
}

#[test]
fn chopped_bit_buffer_is_an_error() {
    // Tree P(a, P(c, b)): a=0 c=10 b=11; "bbbac" is 11 11 11 0 10, nine bits.
    let mut compressed = compress(&chars("bbbac"));
    assert_eq!(&compressed[compressed.len() - 3..], &[7, 0b1111_1101, 0]);
    compressed.pop();
    // What is left of the bits is a lone 1, which stops inside the tree.
    assert_eq!(
        decompress::<char>(&compressed),
        Err(DecompressionError::BitCodeDecodingError(DecodingError::InvalidEncoding))
    );
}

#[test]
fn chopped_single_data_byte_is_an_error() {
    // Chopping the only data byte leaves a lone padding byte 6, which no buffer has.
    let mut compressed = compress(&chars("ab"));
    compressed.pop();
    assert_eq!(decompress::<char>(&compressed), Err(DecompressionError::InvalidBitCode));
}

#[test]
fn tree_errors() {
    assert_eq!(
        decompress::<char>(&[7]),
        Err(DecompressionError::InvalidDecodingTree(
            NodeDeserializationError::InvalidNodeTypeSpecifier(7)
        ))
    );
    assert_eq!(
        decompress::<char>(&[1, 0, 0x61, 0, 0, 0]),
        Err(DecompressionError::InvalidDecodingTree(
            NodeDeserializationError::MissingNodeTypeSpecifier
        ))
    );
    // 0xD800 is a surrogate, the form of no char.
    assert_eq!(
        decompress::<char>(&[0, 0x00, 0xD8, 0, 0, 0]),
        Err(DecompressionError::InvalidDecodingTree(NodeDeserializationError::InvalidNodeUnitData))
    );
    assert_eq!(
        DecodingTree::<char>::deserialize(&[]).err(),
        Some(NodeDeserializationError::MissingNodeTypeSpecifier)
    );
}

#[test]
fn bit_buffer_errors() {
    // Tree of "ab" then no bit buffer at all.
    assert_eq!(
        decompress::<char>(&[1, 0, 0x61, 0, 0, 0, 0, 0x62, 0, 0, 0]),
        Err(DecompressionError::InvalidBitCode)
    );
    // Tree of "abc" is P(a, P(b, c)); the single bit 1 stops inside it.
    let mut blob = compress(&chars("abc"));
    assert_eq!(&blob[..16], &[1, 0, 0x61, 0, 0, 0, 1, 0, 0x62, 0, 0, 0, 0, 0x63, 0, 0]);
    blob.truncate(blob.len() - 2);
    blob.push(7);
    blob.push(0x80);
    assert_eq!(
        decompress::<char>(&blob),
        Err(DecompressionError::BitCodeDecodingError(DecodingError::InvalidEncoding))
    );
    // A single leaf needs exactly 64 bits.
    assert_eq!(
        decompress::<char>(&[0, 0x61, 0, 0, 0, 0, 1]),
        Err(DecompressionError::BitCodeDecodingError(DecodingError::InvalidEncoding))
    );
    // A lone padding byte that is not 0.
    assert_eq!(decompress::<u8>(&[0, 0x61, 3]), Err(DecompressionError::InvalidBitCode));
    // A padding of 8 or more before data bytes.
    assert_eq!(
        decompress::<u8>(&[1, 0, 0x61, 0, 0x62, 9, 0x40]),
        Err(DecompressionError::InvalidBitCode)
    );
}

#[test]
fn tree_shape_follows_insertion_rule() {
    // a:1 b:1 c:1 d:1 -> P(P(a, d), P(b, c)): after P(a, P(b, c)) the lighter left goes on.
    let text = "abcd";
    let blob = compress(&chars(text));
    let expected_tree = vec![
        1, 1, 0, 0x61, 0, 0, 0, 0, 0x64, 0, 0, 0, 1, 0, 0x62, 0, 0, 0, 0, 0x63, 0, 0, 0,
    ];
    assert_eq!(&blob[..expected_tree.len()], &expected_tree[..]);
    // codes a=00 b=10 c=11 d=01: 00 10 11 01 -> 0x2D, no padding
    assert_eq!(&blob[expected_tree.len()..], &[0, 0x2D]);
    assert_eq!(round_trip(text), text);
}

#[test]
fn frequencies_order_the_insertions() {
    // b occurs more often, so a is inserted first and gets the left leaf.
    let blob = compress(&chars("bab"));
    assert_eq!(&blob[..11], &[1, 0, 0x61, 0, 0, 0, 0, 0x62, 0, 0, 0]);
    // b=1 a=0 b=1 -> 101, padding 5
    assert_eq!(&blob[11..], &[5, 0xA0]);
}

#[test]
fn node_counts() {
    let (encoder, _) = EncodingTree::encode(&chars("hello world"));
    assert_eq!(encoder.leaf_node_count(), 8);
    assert_eq!(encoder.parent_node_count(), 7);
    assert_eq!(encoder.total_node_count(), 15);
    let (single, _) = EncodingTree::encode(&chars("zzz"));
    assert_eq!(single.leaf_node_count(), 1);
    assert_eq!(single.parent_node_count(), 0);
}

#[test]
fn compression_is_deterministic() {
    let text = "the quick brown fox jumps over the lazy dog";
    assert_eq!(compress(&chars(text)), compress(&chars(text)));
}

#[test]
fn round_trips() {
    for text in [
        "",
        "a",
        "ab",
        "aab",
        "hello, world",
        "Lorem ipsum dolor sit amet, consectetur adipiscing elit.",
        "ünïcødé ✓ 漢字 𝄞",
    ] {
        assert_eq!(round_trip(text), text);
    }
    let bytes: Vec<u8> = (0..=255u8).chain(0..100).collect();
    let blob = compress(&bytes);
    assert_eq!(decompress::<u8>(&blob).unwrap(), bytes);
    let words: Vec<u32> = vec![7, 7, 1_000_000, 7, 42, 42];
    assert_eq!(decompress::<u32>(&compress(&words)).unwrap(), words);
}

#[test]
fn truncation_gives_error_or_prefix() {
    let text = chars("mississippi river");
    let blob = compress(&text);
    for k in 0..=blob.len() {
        match decompress::<char>(&blob[..k]) {
            Ok(decoded) => {
                assert!(decoded.len() <= text.len());
                assert_eq!(&text[..decoded.len()], &decoded[..]);
            }
            Err(_) => {}
        }
    }
}

#[test]
fn tree_serialization_round_trip() {
    let (encoder, _) = EncodingTree::encode(&chars("abracadabra"));
    let decoder = encoder.into_decoder().unwrap();
    let mut ser = Vec::new();
    decoder.serialize(&mut ser);
    ser.push(0xEE);
    let (des, read) = DecodingTree::<char>::deserialize(&ser).unwrap();
    assert_eq!(read, ser.len() - 1);
    let mut again = Vec::new();
    des.serialize(&mut again);
    assert_eq!(again[..], ser[..read]);
}

#[test]
fn char_fixed_bytes() {
    assert_eq!('é'.to_fixed_bytes(), vec![0xE9, 0, 0, 0]);
    assert_eq!(char::from_fixed_bytes(&[0x1E, 0xD1, 0x01, 0]), Some('𝄞'));
    assert_eq!(char::from_fixed_bytes(&[0, 0, 0x11, 0]), None);
    assert_eq!(<char as BinaryCodable>::fixed_size(), 4);
    assert_eq!(0x0102_0304u32.to_fixed_bytes(), vec![4, 3, 2, 1]);
}

#[test]
fn decode_from_bit_buffer() {
    let (encoder, bits) = EncodingTree::encode(&chars("abc"));
    let decoder = encoder.into_decoder().unwrap();
    let other = BitVec::from_bool_slice(&[true, true, false, true, false]);
    assert_eq!(decoder.decode(&other.as_bit_view()).unwrap(), vec!['c', 'a', 'b']);
    assert_eq!(decoder.decode(&bits.as_bit_view()).unwrap(), vec!['a', 'b', 'c']);
}

#[test]
fn per_symbol_codes_decode_back() {
    let text = chars("per symbol codes");
    let (encoder, _) = EncodingTree::encode(&text);
    let codes: Vec<Encoding> = text.iter().map(|c| encoder.encode_value(c)).collect();
    assert_eq!(encoder.decode(&codes).unwrap(), text);
    assert_eq!(encoder.decode_value(&codes[0]), Ok('p'));
    // A path that stops at a parent, and one that runs past a leaf.
    assert_eq!(encoder.decode_value(&Encoding::new_zeroed()), Err(DecodingError::InvalidEncoding));
    let too_long = codes[0].step_left().step_left().step_left().step_left().step_left().step_left();
    assert_eq!(encoder.decode_value(&too_long), Err(DecodingError::InvalidEncoding));
    assert_eq!(encoder.decode(&[too_long]), Err(DecodingError::InvalidEncoding));
}

#[test]
fn decoding_tree_survives_serialization() {
    for text in ["He", "abracadabra", "the quick brown fox jumps over the lazy dog"] {
        let (encoder, compressed) = EncodingTree::encode(&chars(text));
        let decoder = encoder.into_decoder().unwrap();
        let decoded: String = decoder.decode(&compressed.as_bit_view()).unwrap().iter().collect();
        assert_eq!(text, decoded);

        let mut ser = Vec::new();
        decoder.serialize(&mut ser);
        let des = DecodingTree::<char>::deserialize(&ser).unwrap().0;
        assert_eq!(decoder, des);
    }
    let (a, _) = EncodingTree::encode(&chars("ab"));
    let (b, _) = EncodingTree::encode(&chars("ba"));
    assert!(a.into_decoder().unwrap() != b.into_decoder().unwrap());
}

#[test]
fn each_distinct_symbol_has_exactly_one_leaf() {
    let text = chars("mississippi");
    let (encoder, _) = EncodingTree::encode(&text);
    assert_eq!(encoder.leaf_node_count(), 4);
    let mut ser = Vec::new();
    encoder.into_decoder().unwrap().serialize(&mut ser);
    // Walk the preorder form: count the leaves holding each symbol.
    let mut seen: Vec<char> = Vec::new();
    let mut i = 0;
    while i < ser.len() {
        if ser[i] == 0 {
            let c = char::from_fixed_bytes(&ser[i + 1..i + 5]).unwrap();
            assert!(!seen.contains(&c));
            seen.push(c);
            i += 5;
        } else {
            assert_eq!(ser[i], 1);
            i += 1;
        }
    }
    seen.sort();
    assert_eq!(seen, vec!['i', 'm', 'p', 's']);
}
