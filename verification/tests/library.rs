use ternary_compression_v2::{
    build_huffman_tree, entropy_decode, entropy_encode, huffman_decode, huffman_encode,
    lzw_compress, lzw_decompress, lzw_decompress_checked, rle_compress, rle_decompress, trit_frequencies,
    CompressionTracker, DictToken, DictionaryCompressor, HuffNode, RleEntry, Trit, TritMap,
};

fn freqs_of(pairs: &[(Trit, usize)]) -> TritMap<usize> {
    let mut m = TritMap::new();
    for &(t, w) in pairs {
        m.insert(t, w);
    }
    m
}

#[test]
fn trit_value_roundtrip() {
    for t in [Trit::Neg, Trit::Zero, Trit::Pos] {
        assert_eq!(Trit::from_i8(t.to_i8()), Some(t));
    }
    assert_eq!(Trit::from_i8(-2), None);
    assert_eq!(Trit::from_i8(127), None);
}

#[test]
fn rle_runs_of_alternating_stream() {
    let data = vec![Trit::Neg, Trit::Pos, Trit::Neg, Trit::Pos];
    let runs = rle_compress(&data);
    assert_eq!(runs.len(), 4);
    assert!(runs.iter().all(|e| e.count == 1));
    assert_eq!(rle_decompress(&runs), data);
}

#[test]
fn rle_decompress_of_non_canonical_entries() {
    let entries = vec![
        RleEntry { trit: Trit::Pos, count: 0 },
        RleEntry { trit: Trit::Pos, count: 2 },
        RleEntry { trit: Trit::Neg, count: 1 },
    ];
    let data = rle_decompress(&entries);
    assert_eq!(data, vec![Trit::Pos, Trit::Pos, Trit::Neg]);
    assert_eq!(
        rle_compress(&data),
        vec![RleEntry { trit: Trit::Pos, count: 2 }, RleEntry { trit: Trit::Neg, count: 1 }]
    );
}

#[test]
fn lzw_codes_of_a_run() {
    let data = vec![Trit::Pos; 5];
    assert_eq!(lzw_compress(&data), vec![2, 3, 3]);
}

#[test]
fn lzw_code_learned_in_the_same_step() {
    assert_eq!(lzw_decompress(&[2, 3]), vec![Trit::Pos, Trit::Pos, Trit::Pos]);
}

#[test]
fn lzw_codes_of_mixed_stream() {
    let data = vec![Trit::Neg, Trit::Zero, Trit::Neg, Trit::Zero, Trit::Neg];
    // N, Z, then NZ (code 3), then N
    assert_eq!(lzw_compress(&data), vec![0, 1, 3, 0]);
    assert_eq!(lzw_decompress(&[0, 1, 3, 0]), data);
}

#[test]
fn huffman_tree_shape_and_codes() {
    let freqs = freqs_of(&[(Trit::Pos, 10), (Trit::Zero, 5), (Trit::Neg, 2)]);
    let tree = build_huffman_tree(&freqs).unwrap();
    assert_eq!(tree.weight(), 17);
    let codes = tree.build_codes();
    assert_eq!(codes.get(Trit::Neg).unwrap(), &vec![0u8, 0]);
    assert_eq!(codes.get(Trit::Zero).unwrap(), &vec![0u8, 1]);
    assert_eq!(codes.get(Trit::Pos).unwrap(), &vec![1u8]);
    let bits = huffman_encode(&[Trit::Neg, Trit::Pos, Trit::Zero], &codes);
    assert_eq!(bits, vec![0, 0, 1, 0, 1]);
    assert_eq!(huffman_decode(&bits, &tree), vec![Trit::Neg, Trit::Pos, Trit::Zero]);
}

#[test]
fn huffman_equal_weights() {
    let freqs = freqs_of(&[(Trit::Pos, 1), (Trit::Zero, 1), (Trit::Neg, 1)]);
    let tree = build_huffman_tree(&freqs).unwrap();
    assert_eq!(tree.weight(), 3);
    let codes = tree.build_codes();
    let lens: Vec<usize> = [Trit::Neg, Trit::Zero, Trit::Pos]
        .iter()
        .map(|t| codes.get(*t).unwrap().len())
        .collect();
    let mut sorted = lens.clone();
    sorted.sort();
    assert_eq!(sorted, vec![1, 2, 2]);
}

#[test]
fn huffman_zero_frequency_is_left_out() {
    let freqs = freqs_of(&[(Trit::Neg, 0), (Trit::Pos, 3)]);
    let tree = build_huffman_tree(&freqs).unwrap();
    let codes = tree.build_codes();
    assert!(codes.get(Trit::Neg).is_none());
    assert!(codes.get(Trit::Pos).unwrap().is_empty());
    let all_zero = freqs_of(&[(Trit::Neg, 0), (Trit::Zero, 0)]);
    assert!(build_huffman_tree(&all_zero).is_none());
}

#[test]
fn huffman_single_leaf_tree_decoding() {
    let tree = HuffNode::Leaf { trit: Trit::Zero, weight: 2 };
    assert_eq!(huffman_decode(&[], &tree), vec![Trit::Zero; 2]);
    assert_eq!(huffman_decode(&[0, 1], &tree), vec![Trit::Zero; 4]);
    assert_eq!(huffman_decode(&[0, 1, 1], &tree), vec![Trit::Zero; 6]);
}

#[test]
fn huffman_single_symbol_roundtrip() {
    let data = vec![Trit::Pos, Trit::Pos, Trit::Pos];
    let freqs = trit_frequencies(&data);
    let tree = build_huffman_tree(&freqs).unwrap();
    let codes = tree.build_codes();
    let bits = huffman_encode(&data, &codes);
    assert!(bits.is_empty());
    assert_eq!(huffman_decode(&bits, &tree), data);
}

#[test]
fn huffman_tie_puts_leaf_first() {
    let freqs = freqs_of(&[(Trit::Neg, 1), (Trit::Zero, 1), (Trit::Pos, 2)]);
    let tree = build_huffman_tree(&freqs).unwrap();
    match &tree {
        HuffNode::Internal { left, right, weight } => {
            assert_eq!(*weight, 4);
            assert!(matches!(**left, HuffNode::Leaf { trit: Trit::Pos, weight: 2 }));
            assert!(matches!(**right, HuffNode::Internal { weight: 2, .. }));
        }
        HuffNode::Leaf { .. } => panic!("expected an internal root"),
    }
    let codes = tree.build_codes();
    assert_eq!(codes.get(Trit::Pos).unwrap(), &vec![0u8]);
}

#[test]
fn huffman_uncoded_trits_and_partial_word() {
    let freqs = freqs_of(&[(Trit::Pos, 10), (Trit::Zero, 5)]);
    let tree = build_huffman_tree(&freqs).unwrap();
    let codes = tree.build_codes();
    let data = vec![Trit::Pos, Trit::Neg, Trit::Zero, Trit::Neg];
    let mut bits = huffman_encode(&data, &codes);
    assert_eq!(bits.len(), 2);
    assert_eq!(huffman_decode(&bits, &tree), vec![Trit::Pos, Trit::Zero]);
    // a three-symbol tree has code words of two bits; one bit of one is unfinished
    let tree3 = build_huffman_tree(&freqs_of(&[(Trit::Pos, 10), (Trit::Zero, 5), (Trit::Neg, 2)]))
        .unwrap();
    let codes3 = tree3.build_codes();
    bits = huffman_encode(&[Trit::Zero, Trit::Pos], &codes3);
    bits.push(0);
    assert_eq!(huffman_decode(&bits, &tree3), vec![Trit::Zero, Trit::Pos]);
}

#[test]
fn lzw_checked_decoding() {
    assert_eq!(lzw_decompress_checked(&[2, 3]), Some(vec![Trit::Pos, Trit::Pos, Trit::Pos]));
    assert_eq!(lzw_decompress_checked(&[7]), None);
    assert_eq!(lzw_decompress_checked(&[0, 9]), None);
    assert_eq!(lzw_decompress_checked(&[]), Some(vec![]));
}

#[test]
fn huffman_decoding_ignores_trailing_partial_code() {
    let freqs = freqs_of(&[(Trit::Pos, 10), (Trit::Zero, 5), (Trit::Neg, 2)]);
    let tree = build_huffman_tree(&freqs).unwrap();
    assert_eq!(huffman_decode(&[1, 0], &tree), vec![Trit::Pos]);
}

#[test]
fn huffman_encoding_skips_trits_without_code() {
    let freqs = freqs_of(&[(Trit::Pos, 4)]);
    let tree = build_huffman_tree(&freqs).unwrap();
    let codes = tree.build_codes();
    assert!(huffman_encode(&[Trit::Pos, Trit::Neg], &codes).is_empty());
}

#[test]
fn frequencies_of_sample() {
    let data = vec![Trit::Pos, Trit::Pos, Trit::Zero, Trit::Pos];
    let freqs = trit_frequencies(&data);
    assert_eq!(freqs.get(Trit::Pos), Some(&3));
    assert_eq!(freqs.get(Trit::Zero), Some(&1));
    assert_eq!(freqs.get(Trit::Neg), None);
    assert!(trit_frequencies(&[]).is_empty());
}

#[test]
fn dictionary_patterns_and_token_lengths() {
    let mut comp = DictionaryCompressor::new();
    let mut data = Vec::new();
    for _ in 0..10 {
        data.extend_from_slice(&[Trit::Pos, Trit::Pos, Trit::Neg]);
    }
    comp.build_dictionary(&data, 2, 4, 2);
    // PP, PN, NP, PPN, PNP, NPP, PPNP, PNPP, NPPN all occur at least twice
    assert_eq!(comp.dictionary_size(), 9);
    let tokens = comp.compress(&data);
    let lens: Vec<usize> = tokens
        .iter()
        .map(|t| match t {
            DictToken::Pattern { len, .. } => *len,
            DictToken::Literal(_) => 1,
        })
        .collect();
    assert_eq!(lens, vec![4, 4, 4, 4, 4, 4, 4, 2]);
    assert_eq!(comp.decompress(&tokens), data);
}

#[test]
fn dictionary_frequency_threshold() {
    let mut comp = DictionaryCompressor::new();
    let data = vec![Trit::Neg, Trit::Zero, Trit::Pos];
    comp.build_dictionary(&data, 2, 3, 2);
    assert_eq!(comp.dictionary_size(), 0);
    let tokens = comp.compress(&data);
    assert_eq!(
        tokens,
        vec![DictToken::Literal(Trit::Neg), DictToken::Literal(Trit::Zero), DictToken::Literal(Trit::Pos)]
    );
}

#[test]
fn dictionary_unknown_code_expands_to_nothing() {
    let comp = DictionaryCompressor::new();
    let tokens = vec![DictToken::Literal(Trit::Pos), DictToken::Pattern { code: 5, len: 3 }];
    assert_eq!(comp.decompress(&tokens), vec![Trit::Pos]);
}

#[test]
fn entropy_packing_exact_bytes() {
    assert_eq!(entropy_encode(&[Trit::Pos, Trit::Zero, Trit::Neg, Trit::Pos]), vec![146]);
    assert_eq!(entropy_encode(&[Trit::Zero]), vec![64]);
    assert_eq!(
        entropy_encode(&[Trit::Pos, Trit::Pos, Trit::Pos, Trit::Pos, Trit::Neg]),
        vec![170, 0]
    );
    assert!(entropy_encode(&[]).is_empty());
}

#[test]
fn entropy_unpacking_edges() {
    assert_eq!(entropy_decode(&[0xFF], 4), vec![Trit::Zero; 4]);
    assert_eq!(entropy_decode(&[146], 10), vec![Trit::Pos, Trit::Zero, Trit::Neg, Trit::Pos]);
    assert_eq!(entropy_decode(&[146], 2), vec![Trit::Pos, Trit::Zero]);
    assert!(entropy_decode(&[146], 0).is_empty());
}

#[test]
fn tracker_records_in_order() {
    let mut tracker = CompressionTracker::new(100);
    tracker.record("rle", 40);
    tracker.record("lzw", 30);
    assert_eq!(tracker.original_size, 100);
    assert_eq!(tracker.compressed_sizes, vec![40, 30]);
    assert_eq!(tracker.method_names, vec!["rle".to_string(), "lzw".to_string()]);
    let copy = tracker.clone();
    assert_eq!(copy.compressed_sizes, tracker.compressed_sizes);
}

fn weighted_code_length(codes: &TritMap<Vec<u8>>, freqs: &[(Trit, usize)]) -> usize {
    freqs.iter().map(|&(t, w)| w * codes.get(t).unwrap().len()).sum()
}

#[test]
fn huffman_code_is_optimal_and_prefix_free() {
    let pairs = [(Trit::Pos, 10), (Trit::Zero, 5), (Trit::Neg, 2)];
    let tree = build_huffman_tree(&freqs_of(&pairs)).unwrap();
    let codes = tree.build_codes();
    assert_eq!(weighted_code_length(&codes, &pairs), 24);
    // another code tree for the same frequencies costs more
    let other = HuffNode::Internal {
        left: Box::new(HuffNode::Leaf { trit: Trit::Neg, weight: 2 }),
        right: Box::new(HuffNode::Internal {
            left: Box::new(HuffNode::Leaf { trit: Trit::Zero, weight: 5 }),
            right: Box::new(HuffNode::Leaf { trit: Trit::Pos, weight: 10 }),
            weight: 15,
        }),
        weight: 17,
    };
    assert_eq!(weighted_code_length(&other.build_codes(), &pairs), 32);
    let words: Vec<Vec<u8>> =
        [Trit::Neg, Trit::Zero, Trit::Pos].iter().map(|t| codes.get(*t).unwrap().clone()).collect();
    for a in 0..3 {
        for b in 0..3 {
            if a != b {
                assert!(!words[b].starts_with(&words[a]));
            }
        }
    }
}

#[test]
fn huffman_tree_clone_is_equal_in_codes() {
    let tree = build_huffman_tree(&freqs_of(&[(Trit::Neg, 3), (Trit::Pos, 1)])).unwrap();
    let copy = tree.clone();
    assert_eq!(copy.weight(), tree.weight());
    assert_eq!(copy.build_codes().get(Trit::Pos), tree.build_codes().get(Trit::Pos));
}

#[test]
fn lzw_roundtrip_past_the_code_limit() {
    // a long pseudo-random stream fills the 4096-code dictionary
    let mut data = Vec::new();
    let mut x: u32 = 12345;
    for _ in 0..60000 {
        x = x.wrapping_mul(1103515245).wrapping_add(12345);
        data.push(match (x >> 16) % 3 {
            0 => Trit::Neg,
            1 => Trit::Zero,
            _ => Trit::Pos,
        });
    }
    let codes = lzw_compress(&data);
    assert!(codes.iter().any(|&c| c >= 4000));
    assert!(codes.iter().all(|&c| c < 4096));
    assert_eq!(lzw_decompress(&codes), data);
}
