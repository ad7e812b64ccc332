use huffman::bit_vector::BitVector;
use huffman::huffman::{HuffmanEncoding, HuffmanError};

#[test]
fn test_example() {
    // A corpus whose frequency ties never make the greedy merge ambiguous,
    // so the codeword assignment is forced.
    let text = "ADEAD_DAD_CEDED_A_BAD_BABE_A_BEADED_ABACA_BED";
    let chars: Vec<char> = text.chars().collect();
    let huffman_tree = HuffmanEncoding::from_corpus(&chars);
    let encoded = huffman_tree.encode_ref(&chars).unwrap();
    let expected: Vec<bool> = "10011101001000110010011101100111001001000111110010011111011111100010001111110100111001001011111011101000111111001"
        .chars()
        .map(|c| c == '1')
        .collect();
    assert_eq!(encoded, BitVector::from_bools(&expected));
    assert_eq!(huffman_tree.decode(&encoded, text.len()).unwrap(), chars);
}

#[test]
fn huffman_test_empty() {
    let corpus: Vec<u8> = vec![];
    let huffman_tree = HuffmanEncoding::<u8>::from_corpus(&corpus);
    assert_eq!(huffman_tree.encode(vec![]).unwrap(), BitVector::new());
    assert_eq!(
        huffman_tree.decode(&BitVector::new(), 0).unwrap(),
        Vec::<u8>::new()
    );
}

#[test]
fn test_concrete_scenario() {
    // Frequency table {A:5, B:2, C:1, D:1} with the standard greedy merges:
    // whatever codewords the tie-breaks pick, the round trip is exact.
    let counts = vec![('A', 5u64), ('B', 2), ('C', 1), ('D', 1)];
    let codec = HuffmanEncoding::from_counts(&counts);
    let message: Vec<char> = "ABACAD".chars().collect();
    let encoded = codec.encode_ref(&message).unwrap();
    let decoded = codec.decode(&encoded, 6).unwrap();
    assert_eq!(decoded, message);
}

#[test]
fn test_single_symbol() {
    // One symbol gets the empty codeword: any run encodes to zero bits and
    // decodes back by count alone.
    let counts = vec![('z', 7u64)];
    let codec = HuffmanEncoding::from_counts(&counts);
    let message = vec!['z'; 5];
    let encoded = codec.encode_ref(&message).unwrap();
    assert_eq!(encoded.len(), 0);
    assert_eq!(codec.decode(&encoded, 5).unwrap(), message);
}

#[test]
fn test_unknown_symbol() {
    let counts = vec![('a', 3u64), ('b', 1)];
    let codec = HuffmanEncoding::from_counts(&counts);
    assert_eq!(
        codec.encode(vec!['a', 'x', 'b']),
        Err(HuffmanError::UnknownSymbol)
    );
}

#[test]
fn test_truncated_input() {
    let counts = vec![('a', 3u64), ('b', 1)];
    let codec = HuffmanEncoding::from_counts(&counts);
    let bits = BitVector::from_bools(&vec![true, false, true]);
    assert_eq!(codec.decode(&bits, 5), Err(HuffmanError::TruncatedInput));
}

#[test]
fn test_empty_tree() {
    let corpus: Vec<char> = vec![];
    let codec = HuffmanEncoding::from_corpus(&corpus);
    assert_eq!(
        codec.decode(&BitVector::new(), 1),
        Err(HuffmanError::EmptyTree)
    );
    // A zero count decodes to nothing on any codec, tree or not.
    assert_eq!(codec.decode(&BitVector::new(), 0).unwrap(), Vec::<char>::new());
}

#[test]
fn test_round_trip_bytes() {
    let corpus: Vec<u8> = b"the quick brown fox jumps over the lazy dog".to_vec();
    let codec = HuffmanEncoding::from_corpus(&corpus);
    let encoded = codec.encode_ref(&corpus).unwrap();
    assert_eq!(codec.decode(&encoded, corpus.len()).unwrap(), corpus);
}
