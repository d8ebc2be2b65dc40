use huffman::huffman::{DecompressError, HuffmanCode};

fn be(b: &[u8]) -> usize {
    ((b[0] as usize) << 24) | ((b[1] as usize) << 16) | ((b[2] as usize) << 8) | (b[3] as usize)
}

#[test]
fn empty_input_compresses_to_empty() {
    let out = HuffmanCode::compress_bytes(&[]);
    assert_eq!(out, Vec::<u8>::new());
}

#[test]
fn aaabbc_round_trip_and_length_field() {
    let input = [97u8, 97, 97, 98, 98, 99];
    let out = HuffmanCode::compress_bytes(&input);
    let tree_len = be(&out[0..4]);
    // three leaves: 3 * 9 bits + 2 inner-node bits = 29 bits = 4 bytes
    assert_eq!(tree_len, 4);
    assert_eq!(be(&out[4 + tree_len..8 + tree_len]), 6);
    // codes of lengths 1, 2, 2 over 3 + 2 + 1 symbols: 9 bits = 2 bytes
    assert_eq!(out.len(), 8 + tree_len + 2);
    assert_eq!(HuffmanCode::decompress_bytes(&out), Ok(input.to_vec()));
}

#[test]
fn single_repeated_byte_round_trip() {
    let input = vec![7u8; 50];
    let out = HuffmanCode::compress_bytes(&input);
    // a single leaf: 9 bits = 2 bytes; empty code, so no body
    assert_eq!(be(&out[0..4]), 2);
    assert_eq!(out[4], 0b1000_0011);
    assert_eq!(out[5], 0b1000_0000);
    assert_eq!(be(&out[6..10]), 50);
    assert_eq!(out.len(), 10);
    assert_eq!(HuffmanCode::decompress_bytes(&out), Ok(input));
}

#[test]
fn single_byte_round_trip() {
    let input = vec![0u8];
    let out = HuffmanCode::compress_bytes(&input);
    assert_eq!(HuffmanCode::decompress_bytes(&out), Ok(input));
}

#[test]
fn all_byte_values_round_trip() {
    let mut input = Vec::new();
    for i in 0..256usize {
        for _ in 0..(i % 7 + 1) {
            input.push(i as u8);
        }
    }
    let out = HuffmanCode::compress_bytes(&input);
    assert_eq!(HuffmanCode::decompress_bytes(&out), Ok(input));
}

#[test]
fn text_round_trip() {
    let text = "the quick brown fox jumps over the lazy dog, again and again";
    let out = HuffmanCode::compress_string(text);
    assert_eq!(out, HuffmanCode::compress_bytes(text.as_bytes()));
    assert_eq!(HuffmanCode::decompress_bytes(&out), Ok(text.as_bytes().to_vec()));
}

#[test]
fn truncated_stream_is_rejected() {
    let input = b"aaabbc".to_vec();
    let out = HuffmanCode::compress_bytes(&input);
    let cut = &out[..out.len() - 1];
    assert_eq!(HuffmanCode::decompress_bytes(cut), Err(DecompressError::TruncatedStream));
}

#[test]
fn truncated_single_symbol_stream_is_rejected() {
    let out = HuffmanCode::compress_bytes(&[5u8, 5, 5]);
    let cut = &out[..out.len() - 1];
    assert!(HuffmanCode::decompress_bytes(cut).is_err());
}

#[test]
fn short_header_is_rejected() {
    assert_eq!(HuffmanCode::decompress_bytes(&[]), Err(DecompressError::TruncatedStream));
    assert_eq!(HuffmanCode::decompress_bytes(&[0, 0, 1]), Err(DecompressError::TruncatedStream));
}

#[test]
fn tree_length_past_end_is_rejected() {
    assert_eq!(
        HuffmanCode::decompress_bytes(&[0, 0, 0, 9, 1, 2, 3, 0, 0, 0, 0]),
        Err(DecompressError::TruncatedStream)
    );
}

#[test]
fn incomplete_tree_is_corrupt() {
    // one byte of tree holding only inner-node bits
    assert_eq!(
        HuffmanCode::decompress_bytes(&[0, 0, 0, 1, 0, 0, 0, 0, 0]),
        Err(DecompressError::CorruptTree)
    );
}

#[test]
fn zero_symbols_decode_to_empty() {
    // a leaf for byte 65, then a count of zero
    let stream = [0, 0, 0, 2, 0b1010_0000, 0b1000_0000, 0, 0, 0, 0];
    assert_eq!(HuffmanCode::decompress_bytes(&stream), Ok(Vec::new()));
}

#[test]
fn handmade_stream_decodes() {
    // tree: inner(leaf 'x', leaf 'y'); codes x = 0, y = 1; body "xyyx" = 0110
    // tree bits: 0 1 01111000 1 01111001 -> 21 bits, 3 bytes
    let tree = [0b0101_1110, 0b0010_1111, 0b0010_0000];
    let mut stream = vec![0, 0, 0, 3];
    stream.extend_from_slice(&tree);
    stream.extend_from_slice(&[0, 0, 0, 4, 0b0110_0000]);
    assert_eq!(HuffmanCode::decompress_bytes(&stream), Ok(b"xyyx".to_vec()));
    // asking for more symbols than the body holds
    let last = stream.len() - 2;
    stream[last] = 9;
    assert_eq!(HuffmanCode::decompress_bytes(&stream), Err(DecompressError::TruncatedStream));
}

#[test]
fn deserialize_reads_tree() {
    assert!(HuffmanCode::deserialize(&[0b1010_0000, 0b1000_0000]).is_ok());
    assert_eq!(HuffmanCode::deserialize(&[0b0000_0000]).err(), Some(DecompressError::CorruptTree));
}
