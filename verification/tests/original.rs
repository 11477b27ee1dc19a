use ternary_compression_v2::{
    build_huffman_tree, entropy_decode, entropy_encode, huffman_decode, huffman_encode,
    lzw_compress, lzw_decompress, rle_compress, rle_decompress, DictionaryCompressor, Trit,
    TritMap,
};

fn sample_data() -> Vec<Trit> {
    vec![
        Trit::Pos, Trit::Pos, Trit::Pos, Trit::Pos, Trit::Pos,
        Trit::Zero, Trit::Zero, Trit::Zero,
        Trit::Neg, Trit::Neg,
        Trit::Pos, Trit::Pos, Trit::Pos,
        Trit::Zero, Trit::Zero, Trit::Zero, Trit::Zero,
        Trit::Neg, Trit::Neg, Trit::Neg, Trit::Neg, Trit::Neg,
    ]
}

#[test]
fn test_trit_conversions() {
    assert_eq!(Trit::Neg.to_i8(), -1);
    assert_eq!(Trit::Zero.to_i8(), 0);
    assert_eq!(Trit::Pos.to_i8(), 1);
    assert_eq!(Trit::from_i8(-1), Some(Trit::Neg));
    assert_eq!(Trit::from_i8(0), Some(Trit::Zero));
    assert_eq!(Trit::from_i8(1), Some(Trit::Pos));
    assert_eq!(Trit::from_i8(2), None);
}

#[test]
fn test_rle_empty() {
    let compressed = rle_compress(&[]);
    assert!(compressed.is_empty());
    let decompressed = rle_decompress(&[]);
    assert!(decompressed.is_empty());
}

#[test]
fn test_rle_roundtrip() {
    let data = sample_data();
    let compressed = rle_compress(&data);
    let decompressed = rle_decompress(&compressed);
    assert_eq!(data, decompressed);
}

#[test]
fn test_rle_counts() {
    let compressed = rle_compress(&sample_data());
    assert_eq!(compressed.len(), 6); // 6 runs in sample_data
    assert_eq!(compressed[0].count, 5); // Pos x5
    assert_eq!(compressed[1].count, 3); // Zero x3
    assert_eq!(compressed[2].count, 2); // Neg x2
}

#[test]
fn test_rle_single_element() {
    let data = vec![Trit::Pos];
    let compressed = rle_compress(&data);
    assert_eq!(compressed.len(), 1);
    assert_eq!(compressed[0].trit, Trit::Pos);
    assert_eq!(compressed[0].count, 1);
}

#[test]
fn test_rle_all_same() {
    let data = vec![Trit::Zero; 100];
    let compressed = rle_compress(&data);
    assert_eq!(compressed.len(), 1);
    assert_eq!(compressed[0].count, 100);
}

#[test]
fn test_huffman_build_tree() {
    let mut freqs = TritMap::new();
    freqs.insert(Trit::Pos, 10);
    freqs.insert(Trit::Zero, 5);
    freqs.insert(Trit::Neg, 2);
    let tree = build_huffman_tree(&freqs).unwrap();
    let codes = tree.build_codes();
    // Most frequent should have shortest code
    assert!(codes.get(Trit::Pos).unwrap().len() <= codes.get(Trit::Neg).unwrap().len());
}

#[test]
fn test_huffman_encode_decode() {
    let data = sample_data();
    let mut freqs = TritMap::new();
    for &t in &data {
        let c = match freqs.get(t) {
            Some(c) => *c,
            None => 0,
        };
        freqs.insert(t, c + 1);
    }
    let tree = build_huffman_tree(&freqs).unwrap();
    let codes = tree.build_codes();
    let encoded = huffman_encode(&data, &codes);
    let decoded = huffman_decode(&encoded, &tree);
    assert_eq!(data, decoded);
}

#[test]
fn test_huffman_empty() {
    let freqs: TritMap<usize> = TritMap::new();
    assert!(build_huffman_tree(&freqs).is_none());
}

#[test]
fn test_huffman_single_symbol() {
    let mut freqs = TritMap::new();
    freqs.insert(Trit::Pos, 5);
    let tree = build_huffman_tree(&freqs).unwrap();
    let codes = tree.build_codes();
    assert!(codes.get(Trit::Pos).unwrap().is_empty()); // single symbol has empty code
}

#[test]
fn test_lzw_roundtrip() {
    let data = sample_data();
    let compressed = lzw_compress(&data);
    let decompressed = lzw_decompress(&compressed);
    assert_eq!(data, decompressed);
}

#[test]
fn test_lzw_empty() {
    assert!(lzw_compress(&[]).is_empty());
    assert!(lzw_decompress(&[]).is_empty());
}

#[test]
fn test_lzw_simple() {
    let data = vec![Trit::Pos, Trit::Pos, Trit::Pos, Trit::Pos, Trit::Pos];
    let compressed = lzw_compress(&data);
    assert!(!compressed.is_empty());
    let decompressed = lzw_decompress(&compressed);
    assert_eq!(data, decompressed);
}

#[test]
fn test_lzw_repeating_pattern() {
    let mut data = Vec::new();
    for _ in 0..20 {
        data.push(Trit::Pos);
        data.push(Trit::Zero);
        data.push(Trit::Neg);
    }
    let compressed = lzw_compress(&data);
    // Should compress significantly with repeating pattern
    assert!(compressed.len() < data.len());
    let decompressed = lzw_decompress(&compressed);
    assert_eq!(data, decompressed);
}

#[test]
fn test_dictionary_compressor() {
    let mut comp = DictionaryCompressor::new();
    let mut data = Vec::new();
    for _ in 0..10 {
        data.extend_from_slice(&[Trit::Pos, Trit::Pos, Trit::Neg]);
    }
    comp.build_dictionary(&data, 2, 4, 2);
    assert!(comp.dictionary_size() > 0);
    let tokens = comp.compress(&data);
    let decompressed = comp.decompress(&tokens);
    assert_eq!(data, decompressed);
}

#[test]
fn test_dictionary_empty() {
    let mut comp = DictionaryCompressor::new();
    comp.build_dictionary(&[], 2, 4, 2);
    assert_eq!(comp.dictionary_size(), 0);
    // compress empty data
    let tokens = comp.compress(&[]);
    assert!(tokens.is_empty());
}

#[test]
fn test_entropy_encode_decode() {
    let data = sample_data();
    let encoded = entropy_encode(&data);
    let decoded = entropy_decode(&encoded, data.len());
    assert_eq!(data, decoded);
}

#[test]
fn test_entropy_encode_size() {
    let data = vec![Trit::Pos; 8];
    let encoded = entropy_encode(&data);
    // 8 trits → 4 per byte → 2 bytes
    assert_eq!(encoded.len(), 2);
}
