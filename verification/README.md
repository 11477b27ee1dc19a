# ternary_compression_v2

Compression algorithms for streams of balanced-ternary digits (trits, values in
{-1, 0, +1}), written in Verus with their behaviour stated in contracts and proved.

- `src/trit.rs`: the `Trit` type and helpers on trit strings.
- `src/trit_map.rs`: `TritMap`, a map with one slot per trit (frequencies, code tables),
  and `trit_frequencies`.
- `src/rle.rs`: run-length encoding; compression and decompression are proved inverse.
- `src/huffman.rs`: Huffman trees, code tables, encoding and decoding; the built tree is
  proved optimal and prefix-free, to give shorter-or-equal codes to more frequent trits,
  and, built from a stream's own frequencies, to decode the stream's encoding back to the
  stream (a stream of one repeated trit included).
- `src/lzw.rs`: LZW over the three-symbol alphabet; decompression is proved to undo
  compression for every input; `lzw_decompress_checked` reports undecodable code streams.
- `src/dictionary.rs`: dictionary compression of frequent patterns; the dictionary's
  selection and the greedy longest-match compression are specified, and expansion is
  proved to undo compression.
- `src/entropy.rs`: packing of four trits per byte; unpacking is proved to undo packing.
- `src/tracker.rs`: recording of compressed sizes per method.
- `app/lib.rs`: the floating-point parts (Shannon entropy, compression ratios).
