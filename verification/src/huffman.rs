//! Huffman coding of trit streams: tree construction, code tables, encoding
//! and decoding.
use vstd::prelude::*;

use crate::trit::Trit;
use crate::trit_map::{TritMap, count_of, lemma_count_of_member, lemma_count_of_all};

verus! {

/// A node in the Huffman tree.
#[derive(Debug)]
pub enum HuffNode {
    Leaf { trit: Trit, weight: usize },
    Internal { left: Box<HuffNode>, right: Box<HuffNode>, weight: usize },
}

impl Clone for HuffNode {
    /// A copy of the whole tree.
    fn clone(&self) -> (r: Self)
        ensures
            r == *self,
        decreases self,
    {
        match self {
            HuffNode::Leaf { trit, weight } => HuffNode::Leaf { trit: *trit, weight: *weight },
            HuffNode::Internal { left, right, weight } => HuffNode::Internal {
                left: Box::new((&**left).clone()),
                right: Box::new((&**right).clone()),
                weight: *weight,
            },
        }
    }
}

/// The weight stored in a node.
pub open spec fn node_weight(n: HuffNode) -> usize {
    match n {
        HuffNode::Leaf { weight, .. } => weight,
        HuffNode::Internal { weight, .. } => weight,
    }
}

/// The leaves of `n` from left to right, each with its trit, its weight and its
/// path from the root, where the path to `n` itself is `prefix` and a step to the
/// left child is the bit 0, a step to the right child the bit 1.
pub open spec fn leaves(n: HuffNode, prefix: Seq<u8>) -> Seq<(Trit, usize, Seq<u8>)>
    decreases n,
{
    match n {
        HuffNode::Leaf { trit, weight } => seq![(trit, weight, prefix)],
        HuffNode::Internal { left, right, .. } => leaves(*left, prefix.push(0u8)) + leaves(
            *right,
            prefix.push(1u8),
        ),
    }
}

/// The code table that maps each trit to the path of its last leaf in `n`.
pub open spec fn tree_codes(n: HuffNode) -> Map<Trit, Seq<u8>> {
    apply_codes(Map::empty(), leaves(n, seq![]))
}

/// The table `m` after recording, in order, the path of each leaf of `ls` under
/// its trit.
pub open spec fn apply_codes(m: Map<Trit, Seq<u8>>, ls: Seq<(Trit, usize, Seq<u8>)>) -> Map<
    Trit,
    Seq<u8>,
>
    decreases ls.len(),
{
    if ls.len() == 0 {
        m
    } else {
        apply_codes(m.insert(ls[0].0, ls[0].2), ls.drop_first())
    }
}

/// The code words held by a table of byte vectors.
pub open spec fn code_words(m: Map<Trit, Vec<u8>>) -> Map<Trit, Seq<u8>> {
    m.map_values(|v: Vec<u8>| v@)
}

impl HuffNode {
    /// The weight of this node.
    pub fn weight(&self) -> (w: usize)
        ensures
            w == node_weight(*self),
    {
        match self {
            HuffNode::Leaf { weight, .. } => *weight,
            HuffNode::Internal { weight, .. } => *weight,
        }
    }

    /// Build code table: maps each Trit to a bit string (Vec<u8> of 0/1).
    pub fn build_codes(&self) -> (codes: TritMap<Vec<u8>>)
        ensures
            code_words(codes@) == tree_codes(*self),
    {
        let mut codes: TritMap<Vec<u8>> = TritMap::new();
        let mut prefix: Vec<u8> = Vec::new();
        assert(code_words(codes@) =~= Map::<Trit, Seq<u8>>::empty());
        self.build_codes_inner(&mut prefix, &mut codes);
        assert(prefix@ =~= Seq::<u8>::empty());
        codes
    }

    fn build_codes_inner(&self, prefix: &mut Vec<u8>, codes: &mut TritMap<Vec<u8>>)
        ensures
            final(prefix)@ == old(prefix)@,
            code_words(final(codes)@) == apply_codes(
                code_words(old(codes)@),
                leaves(*self, old(prefix)@),
            ),
        decreases *self,
    {
        match self {
            HuffNode::Leaf { trit, .. } => {
                let code = copy_bytes(prefix);
                codes.insert(*trit, code);
                assert(code_words(codes@) =~= code_words(old(codes)@).insert(*trit, prefix@));
                let ghost ls = leaves(*self, prefix@);
                assert(ls.drop_first() =~= Seq::<(Trit, usize, Seq<u8>)>::empty());
                assert(ls[0].0 == *trit && ls[0].2 == prefix@);
                assert(apply_codes(code_words(old(codes)@).insert(ls[0].0, ls[0].2), ls.drop_first())
                    == code_words(old(codes)@).insert(ls[0].0, ls[0].2));
            },
            HuffNode::Internal { left, right, .. } => {
                let ghost p = prefix@;
                prefix.push(0);
                left.build_codes_inner(prefix, codes);
                prefix.pop();
                assert(prefix@ =~= p);
                let ghost mid = code_words(codes@);
                prefix.push(1);
                right.build_codes_inner(prefix, codes);
                prefix.pop();
                assert(prefix@ =~= p);
                proof {
                    lemma_apply_codes_append(
                        code_words(old(codes)@),
                        leaves(**left, p.push(0u8)),
                        leaves(**right, p.push(1u8)),
                    );
                }
            },
        }
    }
}

fn copy_bytes(v: &Vec<u8>) -> (r: Vec<u8>)
    ensures
        r@ == v@,
{
    let mut r: Vec<u8> = Vec::new();
    let mut i: usize = 0;
    while i < v.len()
        invariant
            0 <= i <= v@.len(),
            r@ == v@.take(i as int),
        decreases v@.len() - i,
    {
        r.push(v[i]);
        i = i + 1;
        assert(r@ =~= v@.take(i as int));
    }
    assert(v@.take(v@.len() as int) =~= v@);
    r
}

/// Recording two lists of leaves one after the other is recording their concatenation.
pub proof fn lemma_apply_codes_append(
    m: Map<Trit, Seq<u8>>,
    l1: Seq<(Trit, usize, Seq<u8>)>,
    l2: Seq<(Trit, usize, Seq<u8>)>,
)
    ensures
        apply_codes(m, l1 + l2) == apply_codes(apply_codes(m, l1), l2),
    decreases l1.len(),
{
    if l1.len() == 0 {
        assert(l1 + l2 =~= l2);
    } else {
        assert((l1 + l2).drop_first() =~= l1.drop_first() + l2);
        lemma_apply_codes_append(m.insert(l1[0].0, l1[0].2), l1.drop_first(), l2);
    }
}

/// The bits of `data` under the code table `codes`: the code words of its trits
/// one after the other, where a trit without a code word contributes nothing.
pub open spec fn huffman_encoding(data: Seq<Trit>, codes: Map<Trit, Seq<u8>>) -> Seq<u8>
    decreases data.len(),
{
    if data.len() == 0 {
        seq![]
    } else {
        huffman_encoding(data.drop_last(), codes) + if codes.contains_key(data.last()) {
            codes[data.last()]
        } else {
            seq![]
        }
    }
}

/// Encode a ternary stream using Huffman codes. Returns a Vec of bits (0/1).
pub fn huffman_encode(data: &[Trit], codes: &TritMap<Vec<u8>>) -> (bits: Vec<u8>)
    ensures
        bits@ == huffman_encoding(data@, code_words(codes@)),
{
    let mut bits: Vec<u8> = Vec::new();
    let mut i: usize = 0;
    assert(data@.take(0) =~= Seq::<Trit>::empty());
    while i < data.len()
        invariant
            0 <= i <= data@.len(),
            bits@ == huffman_encoding(data@.take(i as int), code_words(codes@)),
        decreases data@.len() - i,
    {
        let t = data[i];
        assert(data@.take(i + 1).drop_last() =~= data@.take(i as int));
        match codes.get(t) {
            Some(code) => {
                let ghost before = bits@;
                let mut j: usize = 0;
                while j < code.len()
                    invariant
                        0 <= j <= code@.len(),
                        bits@ == before + code@.take(j as int),
                    decreases code@.len() - j,
                {
                    bits.push(code[j]);
                    j = j + 1;
                    assert(bits@ =~= before + code@.take(j as int));
                }
                assert(code@.take(code@.len() as int) =~= code@);
            },
            None => {
                assert(bits@ =~= bits@ + Seq::<u8>::empty());
            },
        }
        i = i + 1;
    }
    assert(data@.take(data@.len() as int) =~= data@);
    bits
}

/// The child of an internal node that the bit `b` selects: 0 for the left one,
/// any other value for the right one.
pub open spec fn child(n: HuffNode, b: u8) -> HuffNode
    recommends
        n is Internal,
{
    match n {
        HuffNode::Internal { left, right, .. } => if b == 0 {
            *left
        } else {
            *right
        },
        HuffNode::Leaf { .. } => n,
    }
}

/// Decoding `bits` from the internal node `node` of the tree `root`: each bit
/// moves to a child; on reaching a leaf its trit is output and decoding goes on
/// from the root. Bits that end part-way down the tree output nothing.
pub open spec fn decode_from(root: HuffNode, node: HuffNode, bits: Seq<u8>) -> Seq<Trit>
    decreases bits.len(),
{
    if bits.len() == 0 {
        seq![]
    } else {
        let next = child(node, bits[0]);
        match next {
            HuffNode::Leaf { trit, .. } => seq![trit] + decode_from(root, root, bits.drop_first()),
            HuffNode::Internal { .. } => decode_from(root, next, bits.drop_first()),
        }
    }
}

/// The trits that `huffman_decode` gives for `bits` and `tree`: prefix-code
/// decoding from the root. A tree that is a single leaf has the empty code word,
/// so the encoding of a stream is empty; for empty bits the leaf's weight, the
/// number of times its trit occurs, gives the stream: the trit repeated that many
/// times. For bits that are not empty, such a tree gives its trit twice per bit.
pub open spec fn huffman_decoding(tree: HuffNode, bits: Seq<u8>) -> Seq<Trit> {
    match tree {
        HuffNode::Leaf { trit, weight } => if bits.len() == 0 {
            Seq::new(weight as nat, |i: int| trit)
        } else {
            Seq::new(2 * bits.len(), |i: int| trit)
        },
        HuffNode::Internal { .. } => decode_from(tree, tree, bits),
    }
}

/// Decode a bit stream using a Huffman tree. Returns the decoded ternary stream.
pub fn huffman_decode(bits: &[u8], tree: &HuffNode) -> (data: Vec<Trit>)
    ensures
        data@ == huffman_decoding(*tree, bits@),
        tree is Leaf && bits@.len() == 0 ==> data@ == Seq::new(
            tree->Leaf_weight as nat,
            |i: int| tree->Leaf_trit,
        ),
        tree is Leaf && bits@.len() > 0 ==> data@ == Seq::new(
            2 * bits@.len(),
            |i: int| tree->Leaf_trit,
        ),
{
    let mut result: Vec<Trit> = Vec::new();
    if let HuffNode::Leaf { trit, weight } = tree {
        if bits.len() > 0 {
            let mut j: usize = 0;
            while j < bits.len()
                invariant
                    0 <= j <= bits@.len(),
                    result@ =~= Seq::new(2 * j as nat, |i: int| *trit),
                decreases bits@.len() - j,
            {
                result.push(*trit);
                result.push(*trit);
                j = j + 1;
            }
            return result;
        }
        let mut k: usize = 0;
        while k < *weight
            invariant
                0 <= k <= *weight,
                result@ =~= Seq::new(k as nat, |i: int| *trit),
            decreases *weight - k,
        {
            result.push(*trit);
            k = k + 1;
        }
        return result;
    }
    let mut node: &HuffNode = tree;
    let mut i: usize = 0;
    assert(bits@.skip(0) =~= bits@);
    while i < bits.len()
        invariant
            0 <= i <= bits@.len(),
            tree is Internal,
            node is Internal,
            result@ + decode_from(*tree, *node, bits@.skip(i as int)) == decode_from(
                *tree,
                *tree,
                bits@,
            ),
        decreases bits@.len() - i,
    {
        let bit = bits[i];
        node = match node {
            HuffNode::Internal { left, right, .. } => {
                if bit == 0 {
                    &**left
                } else {
                    &**right
                }
            },
            HuffNode::Leaf { .. } => node,
        };
        if let HuffNode::Leaf { trit, .. } = node {
            result.push(*trit);
            node = tree;
        }
        proof {
            let rest = bits@.skip(i as int);
            assert(rest[0] == bit);
            assert(rest.drop_first() =~= bits@.skip(i + 1));
        }
        i = i + 1;
    }
    result
}

/// The leaves under a path prefix are the leaves under the empty path with the
/// prefix in front of each path.
pub proof fn lemma_leaves_prefix(n: HuffNode, p: Seq<u8>)
    ensures
        leaves(n, p).len() == leaves(n, seq![]).len(),
        forall|i: int|
            0 <= i < leaves(n, p).len() ==> #[trigger] leaves(n, p)[i] == (
                leaves(n, seq![])[i].0,
                leaves(n, seq![])[i].1,
                p + leaves(n, seq![])[i].2,
            ),
    decreases n,
{
    match n {
        HuffNode::Leaf { .. } => {
            assert(p + Seq::<u8>::empty() =~= p);
        },
        HuffNode::Internal { left, right, .. } => {
            let e = Seq::<u8>::empty();
            lemma_leaves_prefix(*left, p.push(0u8));
            lemma_leaves_prefix(*left, e.push(0u8));
            lemma_leaves_prefix(*right, p.push(1u8));
            lemma_leaves_prefix(*right, e.push(1u8));
            let ll = leaves(*left, seq![]);
            let rl = leaves(*right, seq![]);
            assert forall|i: int| 0 <= i < leaves(n, p).len() implies #[trigger] leaves(n, p)[i] == (
                leaves(n, seq![])[i].0,
                leaves(n, seq![])[i].1,
                p + leaves(n, seq![])[i].2,
            ) by {
                if i < ll.len() {
                    assert(p.push(0u8) + ll[i].2 =~= p + (e.push(0u8) + ll[i].2));
                } else {
                    let k = i - ll.len();
                    assert(p.push(1u8) + rl[k].2 =~= p + (e.push(1u8) + rl[k].2));
                }
            }
        },
    }
}

/// Following the path of a leaf of the internal node `n` and then `rest`
/// outputs the leaf's trit and goes on decoding `rest` from the root.
pub proof fn lemma_decode_leaf_path(root: HuffNode, n: HuffNode, i: int, rest: Seq<u8>)
    requires
        n is Internal,
        0 <= i < leaves(n, seq![]).len(),
    ensures
        decode_from(root, n, leaves(n, seq![])[i].2 + rest) == seq![leaves(n, seq![])[i].0]
            + decode_from(root, root, rest),
    decreases n,
{
    match n {
        HuffNode::Internal { left, right, .. } => {
            let e = Seq::<u8>::empty();
            lemma_leaves_prefix(*left, e.push(0u8));
            lemma_leaves_prefix(*right, e.push(1u8));
            let ll = leaves(*left, seq![]);
            let rl = leaves(*right, seq![]);
            let ls = leaves(n, seq![]);
            if i < ll.len() {
                let bits = ls[i].2 + rest;
                assert(ls[i] == leaves(*left, e.push(0u8))[i]);
                assert(bits =~= seq![0u8] + (ll[i].2 + rest));
                assert(bits.drop_first() =~= ll[i].2 + rest);
                match *left {
                    HuffNode::Leaf { .. } => {
                        assert(ll[i].2 + rest =~= rest);
                    },
                    HuffNode::Internal { .. } => {
                        lemma_decode_leaf_path(root, *left, i, rest);
                    },
                }
            } else {
                let k = i - ll.len();
                let bits = ls[i].2 + rest;
                assert(ls[i] == leaves(*right, e.push(1u8))[k]);
                assert(bits =~= seq![1u8] + (rl[k].2 + rest));
                assert(bits.drop_first() =~= rl[k].2 + rest);
                match *right {
                    HuffNode::Leaf { .. } => {
                        assert(rl[k].2 + rest =~= rest);
                    },
                    HuffNode::Internal { .. } => {
                        lemma_decode_leaf_path(root, *right, k, rest);
                    },
                }
            }
        },
        HuffNode::Leaf { .. } => {},
    }
}

/// A trit has an entry in the table built from `ls` exactly when it had one
/// before or is the trit of some leaf; an entry that was not there before is
/// the path of such a leaf.
pub proof fn lemma_apply_codes_entry(m: Map<Trit, Seq<u8>>, ls: Seq<(Trit, usize, Seq<u8>)>, t: Trit)
    ensures
        apply_codes(m, ls).contains_key(t) <==> (m.contains_key(t) || exists|i: int|
            0 <= i < ls.len() && ls[i].0 == t),
        apply_codes(m, ls).contains_key(t) ==> (m.contains_key(t) && apply_codes(m, ls)[t]
            == m[t]) || exists|i: int|
            0 <= i < ls.len() && ls[i].0 == t && apply_codes(m, ls)[t] == ls[i].2,
    decreases ls.len(),
{
    if ls.len() > 0 {
        let m2 = m.insert(ls[0].0, ls[0].2);
        lemma_apply_codes_entry(m2, ls.drop_first(), t);
        if exists|i: int| 0 <= i < ls.drop_first().len() && ls.drop_first()[i].0 == t {
            let i = choose|i: int| 0 <= i < ls.drop_first().len() && ls.drop_first()[i].0 == t;
            assert(ls[i + 1].0 == t);
        }
        if exists|i: int| 0 <= i < ls.len() && ls[i].0 == t {
            let i = choose|i: int| 0 <= i < ls.len() && ls[i].0 == t;
            if i > 0 {
                assert(ls.drop_first()[i - 1].0 == t);
            }
        }
        if apply_codes(m, ls).contains_key(t) && !(m.contains_key(t) && apply_codes(m, ls)[t]
            == m[t]) {
            if exists|i: int|
                0 <= i < ls.drop_first().len() && ls.drop_first()[i].0 == t && apply_codes(
                    m,
                    ls,
                )[t] == ls.drop_first()[i].2 {
                let i = choose|i: int|
                    0 <= i < ls.drop_first().len() && ls.drop_first()[i].0 == t && apply_codes(
                        m,
                        ls,
                    )[t] == ls.drop_first()[i].2;
                assert(ls[i + 1] == ls.drop_first()[i]);
            } else {
                assert(ls[0].0 == t);
            }
        }
    }
}

/// The encoding of a non-empty stream is the code of its first trit followed by
/// the encoding of the rest.
pub proof fn lemma_encoding_first(data: Seq<Trit>, codes: Map<Trit, Seq<u8>>)
    requires
        data.len() > 0,
    ensures
        huffman_encoding(data, codes) == (if codes.contains_key(data[0]) {
            codes[data[0]]
        } else {
            seq![]
        }) + huffman_encoding(data.drop_first(), codes),
    decreases data.len(),
{
    if data.len() > 1 {
        lemma_encoding_first(data.drop_last(), codes);
        assert(data.drop_last().drop_first() =~= data.drop_first().drop_last());
        assert(data.drop_first().last() == data.last());
        assert(data.drop_last()[0] == data[0]);
    } else {
        assert(data.drop_first() =~= Seq::<Trit>::empty());
        assert(data.drop_last() =~= Seq::<Trit>::empty());
    }
}

/// Encoding two streams one after the other gives the encoding of their
/// concatenation, and one trit is encoded as its code word, or as nothing where
/// the table has none.
pub proof fn lemma_huffman_encoding_append(a: Seq<Trit>, b: Seq<Trit>, codes: Map<Trit, Seq<u8>>, t: Trit)
    ensures
        huffman_encoding(a + b, codes) == huffman_encoding(a, codes) + huffman_encoding(b, codes),
        huffman_encoding(seq![t], codes) == if codes.contains_key(t) {
            codes[t]
        } else {
            Seq::<u8>::empty()
        },
    decreases b.len(),
{
    assert(seq![t].drop_last() =~= Seq::<Trit>::empty());
    assert(seq![t].last() == t);
    assert(huffman_encoding(Seq::<Trit>::empty(), codes) =~= Seq::<u8>::empty());
    assert(huffman_encoding(seq![t], codes) =~= if codes.contains_key(t) {
        codes[t]
    } else {
        Seq::<u8>::empty()
    });
    if b.len() == 0 {
        assert(a + b =~= a);
        assert(huffman_encoding(a, codes) + huffman_encoding(b, codes) =~= huffman_encoding(a, codes));
    } else {
        assert((a + b).drop_last() =~= a + b.drop_last());
        assert((a + b).last() == b.last());
        lemma_huffman_encoding_append(a, b.drop_last(), codes, t);
        assert(huffman_encoding(a + b, codes) =~= huffman_encoding(a, codes) + huffman_encoding(
            b,
            codes,
        ));
    }
}

/// Huffman decoding undoes Huffman encoding: for a tree that is not a single leaf,
/// decoding the bits that the tree's code table gives a stream returns the stream,
/// provided every trit of the stream has a leaf in the tree.
pub proof fn lemma_huffman_roundtrip(tree: HuffNode, data: Seq<Trit>)
    requires
        tree is Internal,
        forall|k: int|
            0 <= k < data.len() ==> exists|i: int|
                0 <= i < leaves(tree, seq![]).len() && leaves(tree, seq![])[i].0 == #[trigger] data[k],
    ensures
        huffman_decoding(tree, huffman_encoding(data, tree_codes(tree))) == data,
    decreases data.len(),
{
    let codes = tree_codes(tree);
    let ls = leaves(tree, seq![]);
    if data.len() == 0 {
        assert(decode_from(tree, tree, seq![]) =~= data);
    } else {
        let rest = data.drop_first();
        assert forall|k: int| 0 <= k < rest.len() implies exists|i: int|
            0 <= i < ls.len() && ls[i].0 == #[trigger] rest[k] by {
            assert(rest[k] == data[k + 1]);
        }
        lemma_huffman_roundtrip(tree, rest);
        lemma_encoding_first(data, codes);
        let t = data[0];
        assert(exists|i: int| 0 <= i < ls.len() && ls[i].0 == data[0]);
        lemma_apply_codes_entry(Map::empty(), ls, t);
        let i = choose|i: int| 0 <= i < ls.len() && ls[i].0 == t && codes[t] == ls[i].2;
        lemma_decode_leaf_path(tree, tree, i, huffman_encoding(rest, codes));
        assert(seq![t] + rest =~= data);
    }
}

/// Whether `t` has a positive frequency in `freqs`.
pub open spec fn positive(freqs: Map<Trit, usize>, t: Trit) -> bool {
    freqs.contains_key(t) && freqs[t] > 0
}

/// The frequency of `t`, zero when it has none.
pub open spec fn freq_of(freqs: Map<Trit, usize>, t: Trit) -> int {
    if freqs.contains_key(t) {
        freqs[t] as int
    } else {
        0
    }
}

/// The sum of all frequencies.
pub open spec fn freq_total(freqs: Map<Trit, usize>) -> int {
    freq_of(freqs, Trit::Neg) + freq_of(freqs, Trit::Zero) + freq_of(freqs, Trit::Pos)
}

/// Every internal node weighs as much as its two children together, and its left
/// child weighs no more than its right child.
pub open spec fn weights_ordered(n: HuffNode) -> bool
    decreases n,
{
    match n {
        HuffNode::Leaf { .. } => true,
        HuffNode::Internal { left, right, weight } => {
            &&& weight == node_weight(*left) + node_weight(*right)
            &&& node_weight(*left) <= node_weight(*right)
            &&& weights_ordered(*left)
            &&& weights_ordered(*right)
        },
    }
}

/// `tree` is a code tree for `freqs`: its leaves are the trits of positive
/// frequency, each exactly once, each weighted by its frequency.
pub open spec fn is_code_tree_for(tree: HuffNode, freqs: Map<Trit, usize>) -> bool {
    let ls = leaves(tree, seq![]);
    &&& forall|t: Trit| positive(freqs, t) <==> exists|i: int| 0 <= i < ls.len() && ls[i].0 == t
    &&& forall|i: int|
        0 <= i < ls.len() ==> freqs.contains_key(#[trigger] ls[i].0) && ls[i].1 == freqs[ls[i].0]
    &&& forall|i: int, j: int| 0 <= i < j < ls.len() ==> ls[i].0 != ls[j].0
}

/// `tree` is a Huffman tree for `freqs`: a code tree for `freqs` whose weights
/// are ordered, whose root weighs the total frequency, and in which a leaf that
/// weighs more than another never lies deeper, so a more frequent trit never gets
/// a longer code.
pub open spec fn is_huffman_tree_for(tree: HuffNode, freqs: Map<Trit, usize>) -> bool {
    let ls = leaves(tree, seq![]);
    &&& is_code_tree_for(tree, freqs)
    &&& weights_ordered(tree)
    &&& node_weight(tree) == freq_total(freqs)
    &&& forall|i: int, j: int|
        0 <= i < ls.len() && 0 <= j < ls.len() && ls[i].1 > ls[j].1 ==> ls[i].2.len()
            <= ls[j].2.len()
}

/// Of two children of equal weight, a merged node never stands to the left of a
/// single leaf: the earlier node of the queue goes left, and a merged node joins
/// the queue at its end.
pub open spec fn leaf_first_on_ties(n: HuffNode) -> bool
    decreases n,
{
    match n {
        HuffNode::Leaf { .. } => true,
        HuffNode::Internal { left, right, .. } => {
            &&& (node_weight(*left) == node_weight(*right) && *right is Leaf ==> *left is Leaf)
            &&& leaf_first_on_ties(*left)
            &&& leaf_first_on_ties(*right)
        },
    }
}

/// A forest of leaves, one for each trit of positive frequency, in no particular order.
pub open spec fn leaf_forest(f: Seq<HuffNode>, freqs: Map<Trit, usize>) -> bool {
    &&& f.len() <= 3
    &&& forall|i: int|
        0 <= i < f.len() ==> (#[trigger] f[i]) is Leaf && positive(freqs, f[i]->Leaf_trit)
            && f[i]->Leaf_weight == freqs[f[i]->Leaf_trit]
    &&& forall|i: int, j: int| 0 <= i < j < f.len() ==> f[i]->Leaf_trit != f[j]->Leaf_trit
    &&& forall|t: Trit| positive(freqs, t) ==> exists|i: int| 0 <= i < f.len() && f[i]->Leaf_trit == t
}

/// The forest after the first of two merges of three leaves: the heaviest leaf,
/// then the node that joins the two lighter ones.
pub open spec fn merged_forest(f: Seq<HuffNode>, freqs: Map<Trit, usize>) -> bool {
    &&& f.len() == 2
    &&& f[1] is Internal
    &&& ({
        let c = f[0];
        let a = *(f[1]->left);
        let b = *(f[1]->right);
        &&& leaf_forest(seq![a, b, c], freqs)
        &&& node_weight(a) <= node_weight(b) <= node_weight(c)
        &&& f[1]->Internal_weight == node_weight(a) + node_weight(b)
    })
}

/// Index of the first node of least weight.
fn lightest_index(nodes: &Vec<HuffNode>) -> (k: usize)
    requires
        nodes@.len() > 0,
    ensures
        k < nodes@.len(),
        forall|j: int| 0 <= j < nodes@.len() ==> node_weight(nodes@[k as int]) <= node_weight(
            #[trigger] nodes@[j],
        ),
        forall|j: int| 0 <= j < k ==> node_weight(nodes@[k as int]) < node_weight(
            #[trigger] nodes@[j],
        ),
{
    let mut best: usize = 0;
    let mut i: usize = 1;
    while i < nodes.len()
        invariant
            1 <= i <= nodes@.len(),
            best < i,
            forall|j: int| 0 <= j < i ==> node_weight(nodes@[best as int]) <= node_weight(
                #[trigger] nodes@[j],
            ),
            forall|j: int| 0 <= j < best ==> node_weight(nodes@[best as int]) < node_weight(
                #[trigger] nodes@[j],
            ),
        decreases nodes@.len() - i,
    {
        if nodes[i].weight() < nodes[best].weight() {
            best = i;
        }
        i = i + 1;
    }
    best
}

/// Appends a leaf for `t` when its frequency is positive.
fn add_leaf(nodes: &mut Vec<HuffNode>, freqs: &TritMap<usize>, t: Trit)
    requires
        forall|i: int| 0 <= i < old(nodes)@.len() ==> (#[trigger] old(nodes)@[i]) is Leaf
            && old(nodes)@[i]->Leaf_trit != t,
    ensures
        final(nodes)@ == if positive(freqs@, t) {
            old(nodes)@.push(HuffNode::Leaf { trit: t, weight: freqs@[t] })
        } else {
            old(nodes)@
        },
{
    match freqs.get(t) {
        Some(w) => {
            if *w > 0 {
                nodes.push(HuffNode::Leaf { trit: t, weight: *w });
            }
        },
        None => {},
    }
}

/// Build a Huffman tree from frequency counts of ternary symbols.
pub fn build_huffman_tree(freqs: &TritMap<usize>) -> (tree: Option<HuffNode>)
    requires
        freq_total(freqs@) <= usize::MAX,
    ensures
        tree is None <==> forall|t: Trit| !positive(freqs@, t),
        tree matches Some(n) ==> is_huffman_tree_for(n, freqs@) && leaf_first_on_ties(n),
{
    if freqs.is_empty() {
        return None;
    }
    let mut nodes: Vec<HuffNode> = Vec::new();
    add_leaf(&mut nodes, freqs, Trit::Neg);
    add_leaf(&mut nodes, freqs, Trit::Zero);
    add_leaf(&mut nodes, freqs, Trit::Pos);
    proof {
        lemma_positive_leaves(freqs@);
    }
    assert(nodes@ =~= positive_leaves(freqs@));
    if nodes.len() == 0 {
        return None;
    }
    if nodes.len() == 1 {
        let ghost f0 = nodes@;
        let n = nodes.remove(0);
        proof {
            assert(f0 =~= seq![n]);
            lemma_forest_total(f0, freqs@);
            lemma_single_leaf_tree(n, freqs@);
        }
        assert(leaf_first_on_ties(n));
        return Some(n);
    }
    while nodes.len() > 1
        invariant
            freq_total(freqs@) <= usize::MAX,
            nodes@.len() >= 1,
            leaf_forest(nodes@, freqs@) || merged_forest(nodes@, freqs@) || (nodes@.len() == 1
                && is_huffman_tree_for(nodes@[0], freqs@) && leaf_first_on_ties(nodes@[0])),
        decreases nodes@.len(),
    {
        let ghost f = nodes@;
        let i = lightest_index(&nodes);
        let a = nodes.remove(i);
        let j = lightest_index(&nodes);
        let b = nodes.remove(j);
        proof {
            lemma_merge_step(f, i as int, j as int, freqs@);
        }
        let w = a.weight() + b.weight();
        nodes.push(HuffNode::Internal { left: Box::new(a), right: Box::new(b), weight: w });
    }
    let ghost f0 = nodes@;
    let n = nodes.remove(0);
    proof {
        assert(f0 =~= seq![n]);
        if leaf_forest(f0, freqs@) {
            lemma_forest_total(f0, freqs@);
            lemma_single_leaf_tree(n, freqs@);
        }
    }
    assert(leaf_first_on_ties(n));
    Some(n)
}

/// The leaves of the trits of positive frequency, in the order Neg, Zero, Pos.
pub open spec fn positive_leaves(freqs: Map<Trit, usize>) -> Seq<HuffNode> {
    let one = |t: Trit|
        if positive(freqs, t) {
            seq![HuffNode::Leaf { trit: t, weight: freqs[t] }]
        } else {
            Seq::<HuffNode>::empty()
        };
    one(Trit::Neg) + one(Trit::Zero) + one(Trit::Pos)
}

proof fn lemma_positive_leaves(freqs: Map<Trit, usize>)
    ensures
        leaf_forest(positive_leaves(freqs), freqs),
        positive_leaves(freqs).len() == 0 <==> forall|t: Trit| !positive(freqs, t),
{
    let f = positive_leaves(freqs);
    let ln = HuffNode::Leaf { trit: Trit::Neg, weight: freqs[Trit::Neg] };
    let lz = HuffNode::Leaf { trit: Trit::Zero, weight: freqs[Trit::Zero] };
    let lp = HuffNode::Leaf { trit: Trit::Pos, weight: freqs[Trit::Pos] };
    let pn = positive(freqs, Trit::Neg);
    let pz = positive(freqs, Trit::Zero);
    let pp = positive(freqs, Trit::Pos);
    if pn && pz && pp {
        assert(f =~= seq![ln, lz, lp]);
    } else if pn && pz {
        assert(f =~= seq![ln, lz]);
    } else if pn && pp {
        assert(f =~= seq![ln, lp]);
    } else if pz && pp {
        assert(f =~= seq![lz, lp]);
    } else if pn {
        assert(f =~= seq![ln]);
    } else if pz {
        assert(f =~= seq![lz]);
    } else if pp {
        assert(f =~= seq![lp]);
    } else {
        assert(f =~= Seq::<HuffNode>::empty());
    }
    assert forall|t: Trit| positive(freqs, t) implies exists|i: int|
        0 <= i < f.len() && f[i]->Leaf_trit == t by {
        match t {
            Trit::Neg => assert(f[0]->Leaf_trit == t),
            Trit::Zero => if pn { assert(f[1]->Leaf_trit == t) } else { assert(f[0]->Leaf_trit == t) },
            Trit::Pos => assert(f[f.len() - 1]->Leaf_trit == t),
        }
    }
}

/// The weights of a forest of leaves add up to the total frequency.
proof fn lemma_forest_total(f: Seq<HuffNode>, freqs: Map<Trit, usize>)
    requires
        leaf_forest(f, freqs),
    ensures
        f.len() == 1 ==> node_weight(f[0]) == freq_total(freqs),
        f.len() == 2 ==> node_weight(f[0]) + node_weight(f[1]) == freq_total(freqs),
        f.len() == 3 ==> node_weight(f[0]) + node_weight(f[1]) + node_weight(f[2]) == freq_total(
            freqs,
        ),
{
    assert forall|t: Trit| !positive(freqs, t) implies freq_of(freqs, t) == 0 by {}
    if f.len() >= 1 {
        assert(f[0] is Leaf);
    }
    if f.len() >= 2 {
        assert(f[1] is Leaf);
    }
    if f.len() >= 3 {
        assert(f[2] is Leaf);
    }
    if positive(freqs, Trit::Neg) {
        assert(exists|i: int| 0 <= i < f.len() && f[i]->Leaf_trit == Trit::Neg);
    }
    if positive(freqs, Trit::Zero) {
        assert(exists|i: int| 0 <= i < f.len() && f[i]->Leaf_trit == Trit::Zero);
    }
    if positive(freqs, Trit::Pos) {
        assert(exists|i: int| 0 <= i < f.len() && f[i]->Leaf_trit == Trit::Pos);
    }
}

/// A single leaf for the only trit of positive frequency is a Huffman tree.
proof fn lemma_single_leaf_tree(n: HuffNode, freqs: Map<Trit, usize>)
    requires
        leaf_forest(seq![n], freqs),
        node_weight(n) == freq_total(freqs),
    ensures
        is_huffman_tree_for(n, freqs),
{
    let f = seq![n];
    assert(f[0] == n);
    let ls = leaves(n, seq![]);
    assert(ls.len() == 1);
    assert forall|t: Trit| positive(freqs, t) implies exists|i: int| 0 <= i < ls.len() && ls[i].0 == t by {
        assert(exists|i: int| 0 <= i < f.len() && f[i]->Leaf_trit == t);
        assert(ls[0].0 == t);
    }
}

/// One round of the construction: merging the two lightest nodes keeps the
/// forest in one of the shapes the construction goes through.
proof fn lemma_merge_step(f: Seq<HuffNode>, i: int, j: int, freqs: Map<Trit, usize>)
    requires
        freq_total(freqs) <= usize::MAX,
        f.len() > 1,
        leaf_forest(f, freqs) || merged_forest(f, freqs) || (f.len() == 1 && is_huffman_tree_for(
            f[0],
            freqs,
        ) && leaf_first_on_ties(f[0])),
        0 <= i < f.len(),
        forall|k: int| 0 <= k < f.len() ==> node_weight(f[i]) <= node_weight(#[trigger] f[k]),
        forall|k: int| 0 <= k < i ==> node_weight(f[i]) < node_weight(#[trigger] f[k]),
        0 <= j < f.remove(i).len(),
        forall|k: int|
            0 <= k < f.remove(i).len() ==> node_weight(f.remove(i)[j]) <= node_weight(
                #[trigger] f.remove(i)[k],
            ),
    ensures
        node_weight(f[i]) + node_weight(f.remove(i)[j]) <= usize::MAX,
        ({
            let a = f[i];
            let b = f.remove(i)[j];
            let g = f.remove(i).remove(j).push(
                HuffNode::Internal {
                    left: Box::new(a),
                    right: Box::new(b),
                    weight: (node_weight(a) + node_weight(b)) as usize,
                },
            );
            leaf_forest(g, freqs) || merged_forest(g, freqs) || (g.len() == 1
                && is_huffman_tree_for(g[0], freqs) && leaf_first_on_ties(g[0]))
        }),
{
    reveal_with_fuel(leaves, 3);
    reveal_with_fuel(leaf_first_on_ties, 3);
    reveal_with_fuel(weights_ordered, 3);
    let a = f[i];
    let r = f.remove(i);
    let b = r[j];
    let rest = r.remove(j);
    let wab = (node_weight(a) + node_weight(b)) as usize;
    let m = HuffNode::Internal { left: Box::new(a), right: Box::new(b), weight: wab };
    let g = rest.push(m);
    if leaf_forest(f, freqs) {
        lemma_forest_total(f, freqs);
        if f.len() == 2 {
            assert(a == f[0] || a == f[1]);
            assert(r.len() == 1 && j == 0);
            assert(g =~= seq![m]);
            assert(a->Leaf_trit != b->Leaf_trit);
            let ls = leaves(m, seq![]);
            assert(ls =~= seq![
                (a->Leaf_trit, node_weight(a), seq![0u8]),
                (b->Leaf_trit, node_weight(b), seq![1u8]),
            ]);
            assert forall|t: Trit| positive(freqs, t) implies exists|k: int|
                0 <= k < ls.len() && ls[k].0 == t by {
                let k = choose|k: int| 0 <= k < f.len() && f[k]->Leaf_trit == t;
                if f[k] == a {
                    assert(ls[0].0 == t);
                } else {
                    assert(ls[1].0 == t);
                }
            }
            assert(is_huffman_tree_for(m, freqs));
        } else {
            assert(f.len() == 3);
            let c = rest[0];
            assert(r.len() == 2 && rest.len() == 1);
            assert(g =~= seq![c, m]);
            // every node of `f` is one of a, b, c
            assert forall|k: int| 0 <= k < f.len() implies #[trigger] f[k] == a || f[k] == b || f[k]
                == c by {
                if k < i {
                    assert(f[k] == r[k]);
                    if k < j { assert(r[k] == rest[k]); } else if k > j { assert(r[k] == rest[k - 1]); }
                } else if k > i {
                    assert(f[k] == r[k - 1]);
                    if k - 1 < j { assert(r[k - 1] == rest[k - 1]); } else if k - 1 > j { assert(r[k - 1] == rest[k - 2]); }
                }
            }
            // a, b and c are three different nodes of `f`
            let ia = i;
            let ib = if j < i { j } else { j + 1 };
            let ic = if 0 < i && 0 < ib { 0 } else if 1 != i && 1 != ib { 1 } else { 2 };
            assert(f[ib] == b);
            assert(f[ic] == c) by {
                if ic < i {
                    assert(f[ic] == r[ic]);
                    if ic < j { assert(r[ic] == rest[ic]); } else { assert(r[ic] == rest[ic - 1]); }
                } else {
                    assert(f[ic] == r[ic - 1]);
                    if ic - 1 < j { assert(r[ic - 1] == rest[ic - 1]); } else { assert(r[ic - 1] == rest[ic - 2]); }
                }
            }
            assert(ia != ib && ib != ic && ia != ic);
            assert(node_weight(b) <= node_weight(c));
            let abc = seq![a, b, c];
            assert forall|t: Trit| positive(freqs, t) implies exists|k: int|
                0 <= k < abc.len() && abc[k]->Leaf_trit == t by {
                let k = choose|k: int| 0 <= k < f.len() && f[k]->Leaf_trit == t;
                if f[k] == a {
                    assert(abc[0]->Leaf_trit == t);
                } else if f[k] == b {
                    assert(abc[1]->Leaf_trit == t);
                } else {
                    assert(abc[2]->Leaf_trit == t);
                }
            }
            assert(leaf_forest(abc, freqs));
            assert(merged_forest(g, freqs));
        }
    } else {
        assert(merged_forest(f, freqs));
        let c = f[0];
        let x = *(f[1]->left);
        let y = *(f[1]->right);
        let xyc = seq![x, y, c];
        lemma_forest_total(xyc, freqs);
        assert(r.len() == 1 && j == 0);
        assert(g =~= seq![m]);
        assert(xyc[0] == x && xyc[1] == y && xyc[2] == c);
        let ls = leaves(m, seq![]);
        let e = Seq::<u8>::empty();
        assert(e.push(0u8) =~= seq![0u8]);
        assert(e.push(1u8) =~= seq![1u8]);
        assert(e.push(0u8).push(0u8) =~= seq![0u8, 0u8]);
        assert(e.push(0u8).push(1u8) =~= seq![0u8, 1u8]);
        assert(e.push(1u8).push(0u8) =~= seq![1u8, 0u8]);
        assert(e.push(1u8).push(1u8) =~= seq![1u8, 1u8]);
        assert(x is Leaf && y is Leaf && c is Leaf);
        if i == 0 {
            assert(ls == leaves(c, e.push(0u8)) + leaves(f[1], e.push(1u8)));
            assert(leaves(f[1], e.push(1u8)) == leaves(x, e.push(1u8).push(0u8)) + leaves(
                y,
                e.push(1u8).push(1u8),
            ));
            assert(a == c && b == f[1]);
            assert(ls =~= seq![
                (c->Leaf_trit, node_weight(c), seq![0u8]),
                (x->Leaf_trit, node_weight(x), seq![1u8, 0u8]),
                (y->Leaf_trit, node_weight(y), seq![1u8, 1u8]),
            ]);
            assert forall|t: Trit| positive(freqs, t) implies exists|k: int|
                0 <= k < ls.len() && ls[k].0 == t by {
                let k = choose|k: int| 0 <= k < xyc.len() && xyc[k]->Leaf_trit == t;
                if k == 0 {
                    assert(ls[1].0 == t);
                } else if k == 1 {
                    assert(ls[2].0 == t);
                } else {
                    assert(ls[0].0 == t);
                }
            }
        } else {
            assert(a == f[1] && b == c);
            assert(ls == leaves(f[1], e.push(0u8)) + leaves(c, e.push(1u8)));
            assert(leaves(f[1], e.push(0u8)) == leaves(x, e.push(0u8).push(0u8)) + leaves(
                y,
                e.push(0u8).push(1u8),
            ));
            assert(ls =~= seq![
                (x->Leaf_trit, node_weight(x), seq![0u8, 0u8]),
                (y->Leaf_trit, node_weight(y), seq![0u8, 1u8]),
                (c->Leaf_trit, node_weight(c), seq![1u8]),
            ]);
            assert forall|t: Trit| positive(freqs, t) implies exists|k: int|
                0 <= k < ls.len() && ls[k].0 == t by {
                let k = choose|k: int| 0 <= k < xyc.len() && xyc[k]->Leaf_trit == t;
                assert(ls[k].0 == t);
            }
        }
        assert(is_huffman_tree_for(m, freqs));
    }
}

/// In a tree whose leaves carry different trits, the code table maps the trit of
/// each leaf to that leaf's path, and holds no other trit.
pub proof fn lemma_tree_codes_distinct(tree: HuffNode)
    requires
        forall|i: int, j: int|
            0 <= i < j < leaves(tree, seq![]).len() ==> leaves(tree, seq![])[i].0 != leaves(
                tree,
                seq![],
            )[j].0,
    ensures
        forall|i: int|
            0 <= i < leaves(tree, seq![]).len() ==> tree_codes(tree).contains_key(
                #[trigger] leaves(tree, seq![])[i].0,
            ) && tree_codes(tree)[leaves(tree, seq![])[i].0] == leaves(tree, seq![])[i].2,
        forall|t: Trit|
            tree_codes(tree).contains_key(t) ==> exists|i: int|
                0 <= i < leaves(tree, seq![]).len() && leaves(tree, seq![])[i].0 == t,
{
    let ls = leaves(tree, seq![]);
    assert forall|i: int| 0 <= i < ls.len() implies tree_codes(tree).contains_key(#[trigger] ls[i].0)
        && tree_codes(tree)[ls[i].0] == ls[i].2 by {
        lemma_apply_codes_entry(Map::empty(), ls, ls[i].0);
        let k = choose|k: int|
            0 <= k < ls.len() && ls[k].0 == ls[i].0 && tree_codes(tree)[ls[i].0] == ls[k].2;
        if k != i {
            if k < i {
                assert(ls[k].0 != ls[i].0);
            } else {
                assert(ls[i].0 != ls[k].0);
            }
        }
    }
    assert forall|t: Trit| tree_codes(tree).contains_key(t) implies exists|i: int|
        0 <= i < ls.len() && ls[i].0 == t by {
        lemma_apply_codes_entry(Map::empty(), ls, t);
    }
}

/// The code words of a tree whose leaves carry different trits follow its shape:
/// a leaf's trit has the empty code word; below an internal node, a trit of the
/// left subtree has 0 followed by its code word in that subtree, a trit of the
/// right subtree 1 followed by its code word there, and no other trit has one.
pub proof fn lemma_tree_codes_children(tree: HuffNode, t: Trit)
    requires
        forall|i: int, j: int|
            0 <= i < j < leaves(tree, seq![]).len() ==> leaves(tree, seq![])[i].0 != leaves(
                tree,
                seq![],
            )[j].0,
    ensures
        match tree {
            HuffNode::Leaf { trit, .. } => {
                &&& tree_codes(tree).contains_key(t) <==> t == trit
                &&& t == trit ==> tree_codes(tree)[t] == Seq::<u8>::empty()
            },
            HuffNode::Internal { left, right, .. } => {
                &&& tree_codes(*left).contains_key(t) ==> tree_codes(tree).contains_key(t)
                    && tree_codes(tree)[t] == seq![0u8] + tree_codes(*left)[t]
                &&& tree_codes(*right).contains_key(t) ==> tree_codes(tree).contains_key(t)
                    && tree_codes(tree)[t] == seq![1u8] + tree_codes(*right)[t]
                &&& tree_codes(tree).contains_key(t) ==> tree_codes(*left).contains_key(t)
                    || tree_codes(*right).contains_key(t)
            },
        },
{
    let ls = leaves(tree, seq![]);
    lemma_tree_codes_distinct(tree);
    match tree {
        HuffNode::Leaf { trit, .. } => {
            assert(ls[0].0 == trit);
        },
        HuffNode::Internal { left, right, .. } => {
            let e = Seq::<u8>::empty();
            let l0 = leaves(*left, seq![]);
            let r0 = leaves(*right, seq![]);
            lemma_leaves_prefix(*left, e.push(0u8));
            lemma_leaves_prefix(*right, e.push(1u8));
            let ll = leaves(*left, e.push(0u8));
            let rl = leaves(*right, e.push(1u8));
            assert(ls == ll + rl);
            assert forall|i: int, j: int| 0 <= i < j < l0.len() implies l0[i].0 != l0[j].0 by {
                assert(ls[i] == ll[i]);
                assert(ls[j] == ll[j]);
            }
            assert forall|i: int, j: int| 0 <= i < j < r0.len() implies r0[i].0 != r0[j].0 by {
                assert(ls[ll.len() + i] == rl[i]);
                assert(ls[ll.len() + j] == rl[j]);
            }
            lemma_tree_codes_distinct(*left);
            lemma_tree_codes_distinct(*right);
            if tree_codes(*left).contains_key(t) {
                let i = choose|i: int| 0 <= i < l0.len() && l0[i].0 == t;
                assert(ls[i] == ll[i]);
                assert(ls[i].0 == t);
                assert(e.push(0u8) + l0[i].2 =~= seq![0u8] + l0[i].2);
            }
            if tree_codes(*right).contains_key(t) {
                let i = choose|i: int| 0 <= i < r0.len() && r0[i].0 == t;
                assert(ls[ll.len() + i] == rl[i]);
                assert(ls[ll.len() + i].0 == t);
                assert(e.push(1u8) + r0[i].2 =~= seq![1u8] + r0[i].2);
            }
            if tree_codes(tree).contains_key(t) {
                let i = choose|i: int| 0 <= i < ls.len() && ls[i].0 == t;
                if i < ll.len() {
                    assert(ll[i].0 == l0[i].0);
                    assert(tree_codes(*left).contains_key(l0[i].0));
                } else {
                    assert(ls[i] == rl[i - ll.len()]);
                    assert(tree_codes(*right).contains_key(r0[i - ll.len()].0));
                }
            }
        },
    }
}

/// Decoding one bit at an internal node moves to its left child for the bit 0
/// and to its right child for any other bit; arriving at a leaf outputs its trit
/// and goes back to the root.
pub proof fn lemma_decode_step(root: HuffNode, node: HuffNode, b: u8, rest: Seq<u8>)
    requires
        node is Internal,
    ensures
        ({
            let next = if b == 0 {
                *node->Internal_left
            } else {
                *node->Internal_right
            };
            decode_from(root, node, seq![b] + rest) == match next {
                HuffNode::Leaf { trit, .. } => seq![trit] + decode_from(root, root, rest),
                HuffNode::Internal { .. } => decode_from(root, next, rest),
            }
        }),
{
    assert((seq![b] + rest).drop_first() =~= rest);
    assert((seq![b] + rest)[0] == b);
}

/// In a Huffman tree for `freqs` the code table covers exactly the trits of
/// positive frequency, and a more frequent trit never gets a longer code.
pub proof fn lemma_huffman_code_lengths(tree: HuffNode, freqs: Map<Trit, usize>, t1: Trit, t2: Trit)
    requires
        is_huffman_tree_for(tree, freqs),
    ensures
        tree_codes(tree).contains_key(t1) <==> positive(freqs, t1),
        positive(freqs, t1) && positive(freqs, t2) && freqs[t1] > freqs[t2] ==> tree_codes(
            tree,
        )[t1].len() <= tree_codes(tree)[t2].len(),
{
    let ls = leaves(tree, seq![]);
    lemma_tree_codes_distinct(tree);
    if positive(freqs, t1) {
        let i = choose|i: int| 0 <= i < ls.len() && ls[i].0 == t1;
        assert(tree_codes(tree).contains_key(ls[i].0));
        if positive(freqs, t2) && freqs[t1] > freqs[t2] {
            let j = choose|j: int| 0 <= j < ls.len() && ls[j].0 == t2;
            assert(tree_codes(tree).contains_key(ls[j].0));
            assert(ls[i].1 > ls[j].1);
        }
    }
    if tree_codes(tree).contains_key(t1) {
        let i = choose|i: int| 0 <= i < ls.len() && ls[i].0 == t1;
        assert(freqs.contains_key(ls[i].0));
    }
}

/// Huffman coding with a tree built for the frequencies of a stream is lossless:
/// decoding, with that tree, the bits that its own code table gives the stream
/// returns the stream. This holds for a stream of one repeated trit too, whose
/// single-leaf tree decodes to its trit repeated as often as the leaf's weight.
pub proof fn lemma_huffman_tree_roundtrip(tree: HuffNode, freqs: Map<Trit, usize>, data: Seq<Trit>)
    requires
        is_huffman_tree_for(tree, freqs),
        forall|t: Trit| #[trigger] freqs.contains_key(t) <==> count_of(data, t) > 0,
        forall|t: Trit| #[trigger] freqs.contains_key(t) ==> freqs[t] == count_of(data, t),
    ensures
        huffman_decoding(tree, huffman_encoding(data, tree_codes(tree))) == data,
{
    let ls = leaves(tree, seq![]);
    assert forall|k: int| 0 <= k < data.len() implies positive(freqs, #[trigger] data[k]) by {
        lemma_count_of_member(data, k);
        assert(freqs.contains_key(data[k]));
    }
    match tree {
        HuffNode::Leaf { trit, weight } => {
            assert(ls.len() == 1 && ls[0].0 == trit && ls[0].1 == weight);
            assert forall|k: int| 0 <= k < data.len() implies data[k] == trit by {
                assert(positive(freqs, data[k]));
                let i = choose|i: int| 0 <= i < ls.len() && ls[i].0 == data[k];
            }
            lemma_count_of_all(data, trit);
            assert(freqs.contains_key(ls[0].0));
            assert(weight == count_of(data, trit));
            assert forall|k: int| 0 <= k < data.len() && tree_codes(tree).contains_key(
                #[trigger] data[k],
            ) implies tree_codes(tree)[data[k]].len() == 0 by {
                lemma_apply_codes_entry(Map::empty(), ls, data[k]);
            }
            lemma_encoding_empty(data, tree_codes(tree));
            assert(huffman_decoding(tree, huffman_encoding(data, tree_codes(tree))) =~= data);
        },
        HuffNode::Internal { .. } => {
            assert forall|k: int| 0 <= k < data.len() implies exists|m: int|
                0 <= m < ls.len() && ls[m].0 == #[trigger] data[k] by {
                assert(positive(freqs, data[k]));
            }
            lemma_huffman_roundtrip(tree, data);
        },
    }
}

/// A stream whose trits all have empty code words, or none, encodes to no bits.
proof fn lemma_encoding_empty(data: Seq<Trit>, codes: Map<Trit, Seq<u8>>)
    requires
        forall|k: int|
            0 <= k < data.len() && codes.contains_key(#[trigger] data[k]) ==> codes[data[k]].len()
                == 0,
    ensures
        huffman_encoding(data, codes).len() == 0,
    decreases data.len(),
{
    if data.len() > 0 {
        let d0 = data.drop_last();
        assert forall|k: int| 0 <= k < d0.len() && codes.contains_key(#[trigger] d0[k]) implies codes[d0[k]].len()
            == 0 by {
            assert(d0[k] == data[k]);
        }
        lemma_encoding_empty(d0, codes);
        assert(data.last() == data[data.len() - 1]);
    }
}

/// The trits of `data` that have a code word in `codes`, in order.
pub open spec fn coded_trits(data: Seq<Trit>, codes: Map<Trit, Seq<u8>>) -> Seq<Trit>
    decreases data.len(),
{
    if data.len() == 0 {
        seq![]
    } else {
        (if codes.contains_key(data[0]) {
            seq![data[0]]
        } else {
            seq![]
        }) + coded_trits(data.drop_first(), codes)
    }
}

/// Following from the internal node `n` a proper prefix of the path of one of its
/// leaves reaches no leaf, so it outputs nothing.
pub proof fn lemma_decode_partial_path(root: HuffNode, n: HuffNode, i: int, r: Seq<u8>)
    requires
        n is Internal,
        0 <= i < leaves(n, seq![]).len(),
        r.is_prefix_of(leaves(n, seq![])[i].2),
        r.len() < leaves(n, seq![])[i].2.len(),
    ensures
        decode_from(root, n, r) == Seq::<Trit>::empty(),
    decreases n,
{
    if r.len() > 0 {
        match n {
            HuffNode::Internal { left, right, .. } => {
                let e = Seq::<u8>::empty();
                lemma_leaves_prefix(*left, e.push(0u8));
                lemma_leaves_prefix(*right, e.push(1u8));
                let ll = leaves(*left, seq![]);
                let rl = leaves(*right, seq![]);
                let ls = leaves(n, seq![]);
                let p = ls[i].2;
                assert(r[0] == p[0]) by {
                    assert(r[0] == p.subrange(0, r.len() as int)[0]);
                }
                if i < ll.len() {
                    assert(p == e.push(0u8) + ll[i].2);
                    assert(p[0] == 0u8);
                    let r2 = r.drop_first();
                    assert(r2 =~= ll[i].2.subrange(0, r2.len() as int));
                    match *left {
                        HuffNode::Leaf { .. } => {
                            assert(ll[i].2.len() == 0);
                        },
                        HuffNode::Internal { .. } => {
                            lemma_decode_partial_path(root, *left, i, r2);
                        },
                    }
                } else {
                    let k = i - ll.len();
                    assert(p == e.push(1u8) + rl[k].2);
                    assert(p[0] == 1u8);
                    let r2 = r.drop_first();
                    assert(r2 =~= rl[k].2.subrange(0, r2.len() as int));
                    match *right {
                        HuffNode::Leaf { .. } => {
                            assert(rl[k].2.len() == 0);
                        },
                        HuffNode::Internal { .. } => {
                            lemma_decode_partial_path(root, *right, k, r2);
                        },
                    }
                }
            },
            HuffNode::Leaf { .. } => {},
        }
    }
}

/// Decoding with a tree that is not a single leaf the bits that its code table
/// gives a stream, followed by a proper prefix of one of its code words, returns
/// the trits of the stream that have a code word: trits without one are left
/// out, and the unfinished code word at the end outputs nothing.
pub proof fn lemma_huffman_decode_coded(tree: HuffNode, data: Seq<Trit>, r: Seq<u8>, t: Trit)
    requires
        tree is Internal,
        tree_codes(tree).contains_key(t),
        r.is_prefix_of(tree_codes(tree)[t]),
        r.len() < tree_codes(tree)[t].len(),
    ensures
        huffman_decoding(tree, huffman_encoding(data, tree_codes(tree)) + r) == coded_trits(
            data,
            tree_codes(tree),
        ),
    decreases data.len(),
{
    let codes = tree_codes(tree);
    let ls = leaves(tree, seq![]);
    if data.len() == 0 {
        lemma_apply_codes_entry(Map::empty(), ls, t);
        let i = choose|i: int| 0 <= i < ls.len() && ls[i].0 == t && codes[t] == ls[i].2;
        lemma_decode_partial_path(tree, tree, i, r);
        assert(huffman_encoding(data, codes) + r =~= r);
    } else {
        let rest = data.drop_first();
        lemma_huffman_decode_coded(tree, rest, r, t);
        lemma_encoding_first(data, codes);
        let d0 = data[0];
        if codes.contains_key(d0) {
            lemma_apply_codes_entry(Map::empty(), ls, d0);
            let i = choose|i: int| 0 <= i < ls.len() && ls[i].0 == d0 && codes[d0] == ls[i].2;
            assert(huffman_encoding(data, codes) + r =~= ls[i].2 + (huffman_encoding(rest, codes)
                + r));
            lemma_decode_leaf_path(tree, tree, i, huffman_encoding(rest, codes) + r);
        } else {
            assert(huffman_encoding(data, codes) =~= huffman_encoding(rest, codes));
            assert(coded_trits(data, codes) =~= coded_trits(rest, codes));
        }
    }
}

/// The paths of two different leaves of a tree are never one a prefix of the other.
pub proof fn lemma_leaf_paths_prefix_free(n: HuffNode)
    ensures
        forall|i: int, j: int|
            0 <= i < leaves(n, seq![]).len() && 0 <= j < leaves(n, seq![]).len() && i != j
                ==> !(#[trigger] leaves(n, seq![])[i]).2.is_prefix_of(
                (#[trigger] leaves(n, seq![])[j]).2,
            ),
    decreases n,
{
    match n {
        HuffNode::Leaf { .. } => {},
        HuffNode::Internal { left, right, .. } => {
            let e = Seq::<u8>::empty();
            lemma_leaves_prefix(*left, e.push(0u8));
            lemma_leaves_prefix(*right, e.push(1u8));
            lemma_leaf_paths_prefix_free(*left);
            lemma_leaf_paths_prefix_free(*right);
            let ll = leaves(*left, seq![]);
            let rl = leaves(*right, seq![]);
            let ls = leaves(n, seq![]);
            assert forall|i: int, j: int|
                0 <= i < ls.len() && 0 <= j < ls.len() && i != j implies !(
                #[trigger] ls[i]).2.is_prefix_of((#[trigger] ls[j]).2) by {
                let a = ls[i].2;
                let b = ls[j].2;
                if a.is_prefix_of(b) {
                    assert(a.len() > 0);
                    assert(b.subrange(0, a.len() as int)[0] == b[0]);
                    if i < ll.len() && j < ll.len() {
                        assert(a == e.push(0u8) + ll[i].2);
                        assert(b == e.push(0u8) + ll[j].2);
                        assert(ll[i].2 =~= a.drop_first());
                        assert(ll[j].2 =~= b.drop_first());
                        assert(ll[i].2 =~= ll[j].2.subrange(0, ll[i].2.len() as int));
                        assert(ll[i].2.is_prefix_of(ll[j].2));
                    } else if i >= ll.len() && j >= ll.len() {
                        let i2 = i - ll.len();
                        let j2 = j - ll.len();
                        assert(a == e.push(1u8) + rl[i2].2);
                        assert(b == e.push(1u8) + rl[j2].2);
                        assert(rl[i2].2 =~= a.drop_first());
                        assert(rl[j2].2 =~= b.drop_first());
                        assert(rl[i2].2 =~= rl[j2].2.subrange(0, rl[i2].2.len() as int));
                        assert(rl[i2].2.is_prefix_of(rl[j2].2));
                    } else if i < ll.len() {
                        assert(a[0] == 0u8);
                        assert(b == e.push(1u8) + rl[j - ll.len()].2);
                        assert(b[0] == 1u8);
                    } else {
                        assert(a == e.push(1u8) + rl[i - ll.len()].2);
                        assert(a[0] == 1u8);
                        assert(b == e.push(0u8) + ll[j].2);
                        assert(b[0] == 0u8);
                    }
                }
            }
        },
    }
}

/// The code table of a tree whose leaves carry different trits is a prefix code:
/// the code word of one trit is never a prefix of the code word of another.
pub proof fn lemma_tree_codes_prefix_free(tree: HuffNode, t1: Trit, t2: Trit)
    requires
        forall|i: int, j: int|
            0 <= i < j < leaves(tree, seq![]).len() ==> leaves(tree, seq![])[i].0 != leaves(
                tree,
                seq![],
            )[j].0,
        t1 != t2,
        tree_codes(tree).contains_key(t1),
        tree_codes(tree).contains_key(t2),
    ensures
        !tree_codes(tree)[t1].is_prefix_of(tree_codes(tree)[t2]),
{
    let ls = leaves(tree, seq![]);
    lemma_tree_codes_distinct(tree);
    lemma_leaf_paths_prefix_free(tree);
    let i = choose|i: int| 0 <= i < ls.len() && ls[i].0 == t1;
    let j = choose|j: int| 0 <= j < ls.len() && ls[j].0 == t2;
    assert(tree_codes(tree).contains_key(ls[i].0));
    assert(tree_codes(tree).contains_key(ls[j].0));
}

/// The weighted code length of the leaves `ls`: each leaf's weight times the
/// length of its path, summed.
pub open spec fn code_cost(ls: Seq<(Trit, usize, Seq<u8>)>) -> int
    decreases ls.len(),
{
    if ls.len() == 0 {
        0
    } else {
        code_cost(ls.drop_last()) + ls.last().1 * ls.last().2.len()
    }
}

/// Some leaf of `ls` carries the trit `t`.
pub open spec fn carries_trit(ls: Seq<(Trit, usize, Seq<u8>)>, t: Trit) -> bool {
    exists|i: int| 0 <= i < ls.len() && ls[i].0 == t
}

/// The weights of leaves that carry each trit of positive frequency once add up
/// to the total frequency.
proof fn lemma_leaf_weights_total(ls: Seq<(Trit, usize, Seq<u8>)>, freqs: Map<Trit, usize>)
    requires
        1 <= ls.len() <= 3,
        forall|t: Trit| positive(freqs, t) <==> exists|i: int| 0 <= i < ls.len() && ls[i].0 == t,
        forall|i: int|
            0 <= i < ls.len() ==> freqs.contains_key(#[trigger] ls[i].0) && ls[i].1 == freqs[ls[i].0],
        forall|i: int, j: int| 0 <= i < j < ls.len() ==> ls[i].0 != ls[j].0,
    ensures
        ls.len() == 1 ==> ls[0].1 == freq_total(freqs),
        ls.len() == 2 ==> ls[0].1 + ls[1].1 == freq_total(freqs),
        ls.len() == 3 ==> ls[0].1 + ls[1].1 + ls[2].1 == freq_total(freqs),
{
    assert forall|t: Trit| !carries_trit(ls, t) implies freq_of(freqs, t) == 0 by {
        if freqs.contains_key(t) && freqs[t] > 0 {
            assert(positive(freqs, t));
        }
    }
    assert forall|i: int| 0 <= i < ls.len() implies freq_of(freqs, #[trigger] ls[i].0) == ls[i].1 by {
        assert(freqs.contains_key(ls[i].0));
    }
    let t0 = ls[0].0;
    assert(carries_trit(ls, t0));
    assert(freq_of(freqs, t0) == ls[0].1);
    if ls.len() >= 2 {
        assert(carries_trit(ls, ls[1].0));
        assert(freq_of(freqs, ls[1].0) == ls[1].1);
    }
    if ls.len() >= 3 {
        assert(carries_trit(ls, ls[2].0));
        assert(freq_of(freqs, ls[2].0) == ls[2].1);
    }
    assert forall|t: Trit| carries_trit(ls, t) implies t == ls[0].0 || (ls.len() >= 2 && t == ls[1].0) || (
    ls.len() >= 3 && t == ls[2].0) by {
        let i = choose|i: int| 0 <= i < ls.len() && ls[i].0 == t;
    }
    if ls.len() == 1 {
        assert(!carries_trit(ls, Trit::Neg) || t0 == Trit::Neg);
        match t0 {
            Trit::Neg => {
                assert(!carries_trit(ls, Trit::Zero) && !carries_trit(ls, Trit::Pos));
            },
            Trit::Zero => {
                assert(!carries_trit(ls, Trit::Neg) && !carries_trit(ls, Trit::Pos));
            },
            Trit::Pos => {
                assert(!carries_trit(ls, Trit::Neg) && !carries_trit(ls, Trit::Zero));
            },
        }
    } else if ls.len() == 2 {
        let t1 = ls[1].0;
        if t0 != Trit::Neg && t1 != Trit::Neg {
            assert(!carries_trit(ls, Trit::Neg));
        } else if t0 != Trit::Zero && t1 != Trit::Zero {
            assert(!carries_trit(ls, Trit::Zero));
        } else {
            assert(!carries_trit(ls, Trit::Pos));
        }
    } else {
        let t1 = ls[1].0;
        let t2 = ls[2].0;
        assert(t0 != t1 && t0 != t2 && t1 != t2);
    }
}

proof fn lemma_cost_term(w: usize, l: nat)
    ensures
        l == 0 ==> w * l == 0,
        l == 1 ==> w * l == w,
        l == 2 ==> w * l == 2 * w,
{
    assert(l == 0 ==> w * l == 0) by (nonlinear_arith);
    assert(l == 1 ==> w * l == w) by (nonlinear_arith);
    assert(l == 2 ==> w * l == 2 * w) by (nonlinear_arith);
}

proof fn lemma_leaves_count(n: HuffNode, p: Seq<u8>)
    ensures
        leaves(n, p).len() >= 1,
        n is Leaf <==> leaves(n, p).len() == 1,
    decreases n,
{
    match n {
        HuffNode::Leaf { .. } => {},
        HuffNode::Internal { left, right, .. } => {
            lemma_leaves_count(*left, p.push(0u8));
            lemma_leaves_count(*right, p.push(1u8));
        },
    }
}

/// Facts about the leaves of a code tree: there are one, two or three of them,
/// their weights add up to the total frequency, and the weighted code length is
/// 0, the total, or twice the total less the weight of the one leaf at depth 1.
proof fn lemma_code_tree_cost(n: HuffNode, freqs: Map<Trit, usize>)
    requires
        is_code_tree_for(n, freqs),
    ensures
        ({
            let ls = leaves(n, seq![]);
            &&& 1 <= ls.len() <= 3
            &&& ls.len() == 1 ==> code_cost(ls) == 0 && ls[0].1 == freq_total(freqs)
            &&& ls.len() == 2 ==> code_cost(ls) == freq_total(freqs)
            &&& ls.len() == 3 ==> exists|s: int|
                0 <= s < 3 && ls[s].2.len() == 1 && code_cost(ls) == 2 * freq_total(freqs)
                    - ls[s].1 && forall|k: int| 0 <= k < 3 && k != s ==> #[trigger] ls[k].2.len()
                    == 2
        }),
{
    reveal_with_fuel(leaves, 3);
    reveal_with_fuel(code_cost, 4);
    let ls = leaves(n, seq![]);
    let e = Seq::<u8>::empty();
    lemma_leaves_count(n, e);
    if ls.len() >= 4 {
        assert(ls[0].0 != ls[1].0 && ls[0].0 != ls[2].0 && ls[0].0 != ls[3].0);
        assert(ls[1].0 != ls[2].0 && ls[1].0 != ls[3].0 && ls[2].0 != ls[3].0);
        assert(false);
    }
    lemma_leaf_weights_total(ls, freqs);
    match n {
        HuffNode::Leaf { trit, weight } => {
            assert(ls.len() == 1);
            assert(ls[0].2.len() == 0);
            assert(ls.drop_last() =~= Seq::<(Trit, usize, Seq<u8>)>::empty());
            lemma_cost_term(ls[0].1, ls[0].2.len());
            assert(code_cost(ls) == 0);
        },
        HuffNode::Internal { left, right, .. } => {
            lemma_leaves_count(*left, e.push(0u8));
            lemma_leaves_count(*right, e.push(1u8));
            let a = leaves(*left, e.push(0u8));
            let b = leaves(*right, e.push(1u8));
            assert(ls == a + b);
            if ls.len() == 2 {
                assert(ls[0] == a[0] && ls[1] == b[0]);
                assert(ls.drop_last().drop_last() =~= Seq::<(Trit, usize, Seq<u8>)>::empty());
                assert(ls[0].2.len() == 1 && ls[1].2.len() == 1);
                lemma_cost_term(ls[0].1, ls[0].2.len());
                lemma_cost_term(ls[1].1, ls[1].2.len());
                assert(ls.drop_last().last() == ls[0]);
                assert(code_cost(ls) == ls[0].1 + ls[1].1);
                assert(code_cost(ls) == freq_total(freqs));
            } else {
                if a.len() == 1 {
                    match *right {
                        HuffNode::Internal { left: rl, right: rr, .. } => {
                            lemma_leaves_count(*rl, e.push(1u8).push(0u8));
                            lemma_leaves_count(*rr, e.push(1u8).push(1u8));
                            assert(ls[0] == a[0]);
                            assert(ls[1].2 == e.push(1u8).push(0u8));
                            assert(ls[2].2 == e.push(1u8).push(1u8));
                            assert(ls.drop_last().drop_last().drop_last() =~= Seq::<
                                (Trit, usize, Seq<u8>),
                            >::empty());
                            assert(ls[0].2.len() == 1);
                            lemma_cost_term(ls[0].1, ls[0].2.len());
                            lemma_cost_term(ls[1].1, ls[1].2.len());
                            lemma_cost_term(ls[2].1, ls[2].2.len());
                            assert(ls.drop_last().last() == ls[1]);
                            assert(ls.drop_last().drop_last().last() == ls[0]);
                            assert(code_cost(ls) == ls[0].1 + 2 * ls[1].1 + 2 * ls[2].1);
                            assert(ls[0].2.len() == 1 && ls[1].2.len() == 2 && ls[2].2.len() == 2);
                        },
                        HuffNode::Leaf { .. } => {
                            assert(false);
                        },
                    }
                } else {
                    match *left {
                        HuffNode::Internal { left: ll, right: lr, .. } => {
                            lemma_leaves_count(*ll, e.push(0u8).push(0u8));
                            lemma_leaves_count(*lr, e.push(0u8).push(1u8));
                            assert(ls[2] == b[0]);
                            assert(ls[0].2 == e.push(0u8).push(0u8));
                            assert(ls[1].2 == e.push(0u8).push(1u8));
                            assert(ls.drop_last().drop_last().drop_last() =~= Seq::<
                                (Trit, usize, Seq<u8>),
                            >::empty());
                            assert(ls[2].2.len() == 1);
                            lemma_cost_term(ls[0].1, ls[0].2.len());
                            lemma_cost_term(ls[1].1, ls[1].2.len());
                            lemma_cost_term(ls[2].1, ls[2].2.len());
                            assert(ls.drop_last().last() == ls[1]);
                            assert(ls.drop_last().drop_last().last() == ls[0]);
                            assert(code_cost(ls) == 2 * ls[0].1 + 2 * ls[1].1 + ls[2].1);
                            assert(ls[0].2.len() == 2 && ls[1].2.len() == 2 && ls[2].2.len() == 1);
                        },
                        HuffNode::Leaf { .. } => {
                            assert(false);
                        },
                    }
                }
            }
        },
    }
}

/// A Huffman tree for `freqs` gives an optimal code: no code tree for the same
/// frequencies has a smaller weighted code length.
pub proof fn lemma_huffman_optimal(tree: HuffNode, other: HuffNode, freqs: Map<Trit, usize>)
    requires
        is_huffman_tree_for(tree, freqs),
        is_code_tree_for(other, freqs),
    ensures
        code_cost(leaves(tree, seq![])) <= code_cost(leaves(other, seq![])),
{
    let ls = leaves(tree, seq![]);
    let lo = leaves(other, seq![]);
    lemma_code_tree_cost(tree, freqs);
    lemma_code_tree_cost(other, freqs);
    // both trees have one leaf per trit of positive frequency
    assert(ls.len() == lo.len()) by {
        if ls.len() < lo.len() {
            assert forall|k: int| 0 <= k < lo.len() implies exists|m: int|
                0 <= m < ls.len() && ls[m].0 == #[trigger] lo[k].0 by {
                assert(freqs.contains_key(lo[k].0));
                assert(positive(freqs, lo[k].0));
            }
            if lo.len() == 2 {
                assert(exists|m: int| 0 <= m < ls.len() && ls[m].0 == lo[0].0);
                assert(exists|m: int| 0 <= m < ls.len() && ls[m].0 == lo[1].0);
            } else {
                assert(exists|m: int| 0 <= m < ls.len() && ls[m].0 == lo[0].0);
                assert(exists|m: int| 0 <= m < ls.len() && ls[m].0 == lo[1].0);
                assert(exists|m: int| 0 <= m < ls.len() && ls[m].0 == lo[2].0);
            }
        } else if lo.len() < ls.len() {
            assert forall|k: int| 0 <= k < ls.len() implies exists|m: int|
                0 <= m < lo.len() && lo[m].0 == #[trigger] ls[k].0 by {
                assert(freqs.contains_key(ls[k].0));
                assert(positive(freqs, ls[k].0));
            }
            if ls.len() == 2 {
                assert(exists|m: int| 0 <= m < lo.len() && lo[m].0 == ls[0].0);
                assert(exists|m: int| 0 <= m < lo.len() && lo[m].0 == ls[1].0);
            } else {
                assert(exists|m: int| 0 <= m < lo.len() && lo[m].0 == ls[0].0);
                assert(exists|m: int| 0 <= m < lo.len() && lo[m].0 == ls[1].0);
                assert(exists|m: int| 0 <= m < lo.len() && lo[m].0 == ls[2].0);
            }
        }
    }
    if ls.len() == 3 {
        let s = choose|s: int|
            0 <= s < 3 && ls[s].2.len() == 1 && code_cost(ls) == 2 * freq_total(freqs) - ls[s].1
                && forall|k: int| 0 <= k < 3 && k != s ==> #[trigger] ls[k].2.len() == 2;
        let s2 = choose|s2: int|
            0 <= s2 < 3 && lo[s2].2.len() == 1 && code_cost(lo) == 2 * freq_total(freqs)
                - lo[s2].1 && forall|k: int| 0 <= k < 3 && k != s2 ==> #[trigger] lo[k].2.len() == 2;
        let t = lo[s2].0;
        assert(freqs.contains_key(lo[s2].0));
        assert(positive(freqs, t));
        let m = choose|m: int| 0 <= m < ls.len() && ls[m].0 == t;
        assert(freqs.contains_key(ls[m].0));
        assert(ls[m].1 == lo[s2].1);
        if ls[m].1 > ls[s].1 {
            assert(ls[m].2.len() <= ls[s].2.len());
            if m != s {
                assert(ls[m].2.len() == 2);
            }
        }
    }
}

} // verus!
