//! LZW compression adapted to the three-symbol trit alphabet.
use vstd::prelude::*;

use crate::trit::{
    Trit,
    trit_seqs,
    copy_trits,
    append_trits,
    first_index,
    lemma_first_index_found,
    lemma_first_index_present,
};

verus! {

/// An LZW code: the index of a dictionary entry.
pub type LzwCode = u16;

/// The number of codes the dictionary can hold; once full it stops growing.
pub const LZW_CODE_LIMIT: u16 = 4096;

/// The starting dictionary: the three single-trit strings, with codes 0, 1, 2.
pub open spec fn initial_dict() -> Seq<Seq<Trit>> {
    seq![seq![Trit::Neg], seq![Trit::Zero], seq![Trit::Pos]]
}

/// State of the encoder after reading a prefix of its input: the dictionary,
/// the current match `w`, the codes emitted so far and the strings they stand for.
pub struct EncoderState {
    pub dict: Seq<Seq<Trit>>,
    pub w: Seq<Trit>,
    pub out: Seq<LzwCode>,
    pub phrases: Seq<Seq<Trit>>,
}

pub open spec fn encoder_start() -> EncoderState {
    EncoderState { dict: initial_dict(), w: seq![], out: seq![], phrases: seq![] }
}

/// The encoder reads one trit `t`: it extends the match when the extension is a
/// known string, and otherwise emits the match's code, learns the extension (while
/// there is room) and restarts the match at `t`.
pub open spec fn encoder_step(st: EncoderState, t: Trit) -> EncoderState {
    let wc = st.w.push(t);
    if st.dict.contains(wc) {
        EncoderState { w: wc, ..st }
    } else {
        EncoderState {
            dict: if st.dict.len() < LZW_CODE_LIMIT { st.dict.push(wc) } else { st.dict },
            w: seq![t],
            out: st.out.push(first_index(st.dict, st.w) as LzwCode),
            phrases: st.phrases.push(st.w),
        }
    }
}

/// The encoder state after reading all of `data`.
pub open spec fn encoder_run(data: Seq<Trit>) -> EncoderState
    decreases data.len(),
{
    if data.len() == 0 {
        encoder_start()
    } else {
        encoder_step(encoder_run(data.drop_last()), data.last())
    }
}

/// The LZW encoding of `data`: the codes emitted while reading it, then the code
/// of the final match.
pub open spec fn lzw_encode(data: Seq<Trit>) -> Seq<LzwCode> {
    if data.len() == 0 {
        seq![]
    } else {
        let st = encoder_run(data);
        st.out.push(first_index(st.dict, st.w) as LzwCode)
    }
}

fn initial_dict_vec() -> (d: Vec<Vec<Trit>>)
    ensures
        trit_seqs(d@) == initial_dict(),
        d@.len() == 3,
{
    let mut d: Vec<Vec<Trit>> = Vec::new();
    let a = vec![Trit::Neg];
    let b = vec![Trit::Zero];
    let c = vec![Trit::Pos];
    assert(a@ =~= seq![Trit::Neg]);
    assert(b@ =~= seq![Trit::Zero]);
    assert(c@ =~= seq![Trit::Pos]);
    d.push(a);
    d.push(b);
    d.push(c);
    assert(trit_seqs(d@) =~= initial_dict());
    d
}

/// The position of a trit among the three: Neg 0, Zero 1, Pos 2.
pub open spec fn trit_index(t: Trit) -> int {
    match t {
        Trit::Neg => 0,
        Trit::Zero => 1,
        Trit::Pos => 2,
    }
}

/// The slot of the extension table that holds the code of entry `c` followed by `t`.
pub open spec fn ext_slot(c: int, t: Trit) -> int {
    3 * c + trit_index(t)
}

/// What holds of every encoder dictionary: it starts with the single trits, stays
/// within the code limit, holds no string twice and no empty string, and holds
/// the prefix (all trits but the last) of each of its longer strings.
pub open spec fn dict_wf(d: Seq<Seq<Trit>>) -> bool {
    &&& 3 <= d.len() <= LZW_CODE_LIMIT
    &&& d.take(3) == initial_dict()
    &&& forall|i: int, j: int| 0 <= i < j < d.len() ==> d[i] != d[j]
    &&& forall|m: int|
        0 <= m < d.len() ==> (#[trigger] d[m]).len() >= 1 && (d[m].len() >= 2 ==> d.contains(
            d[m].drop_last(),
        ))
}

/// The extension table `ext` holds, for each entry `c` of `d` and trit `t`, the
/// code of the string `d[c]` followed by `t` when `d` holds that string, and
/// `None` when it does not.
pub open spec fn ext_table_of(ext: Seq<Option<LzwCode>>, d: Seq<Seq<Trit>>) -> bool {
    &&& ext.len() == 3 * d.len()
    &&& forall|c: int, t: Trit|
        0 <= c < d.len() ==> #[trigger] ext[ext_slot(c, t)] == if d.contains(d[c].push(t)) {
            Some(first_index(d, d[c].push(t)) as LzwCode)
        } else {
            None
        }
}

fn trit_position(t: Trit) -> (k: usize)
    ensures
        k == trit_index(t),
{
    match t {
        Trit::Neg => 0,
        Trit::Zero => 1,
        Trit::Pos => 2,
    }
}

/// In a dictionary without repeated strings, the code of an entry is its index.
proof fn lemma_first_index_distinct(d: Seq<Seq<Trit>>, c: int)
    requires
        0 <= c < d.len(),
        forall|i: int, j: int| 0 <= i < j < d.len() ==> d[i] != d[j],
    ensures
        first_index(d, d[c]) == c,
{
    lemma_first_index_found(d, d[c], c);
}

/// Appending a string to a dictionary leaves the codes of its strings alone.
proof fn lemma_first_index_push_old(d: Seq<Seq<Trit>>, y: Seq<Trit>, x: Seq<Trit>)
    requires
        d.contains(x),
    ensures
        first_index(d.push(y), x) == first_index(d, x),
    decreases d.len(),
{
    if d[0] != x {
        let j = choose|j: int| 0 <= j < d.len() && d[j] == x;
        assert(d.drop_first()[j - 1] == x);
        assert(d.push(y).drop_first() =~= d.drop_first().push(y));
        lemma_first_index_push_old(d.drop_first(), y, x);
    }
}

/// A string appended to a dictionary that lacked it gets the next code.
proof fn lemma_first_index_push_new(d: Seq<Seq<Trit>>, x: Seq<Trit>)
    requires
        !d.contains(x),
    ensures
        first_index(d.push(x), x) == d.len(),
        d.push(x).contains(x),
{
    let d2 = d.push(x);
    assert forall|j: int| 0 <= j < d.len() implies d2[j] != x by {
        assert(d2[j] == d[j]);
    }
    lemma_first_index_found(d2, x, d.len() as int);
}

proof fn lemma_initial_tables(ext: Seq<Option<LzwCode>>)
    requires
        ext == Seq::new(9, |k: int| None::<LzwCode>),
    ensures
        dict_wf(initial_dict()),
        ext_table_of(ext, initial_dict()),
{
    let d = initial_dict();
    assert(d.take(3) =~= d);
    assert(d[0][0] == Trit::Neg && d[1][0] == Trit::Zero && d[2][0] == Trit::Pos);
    assert forall|i: int, j: int| 0 <= i < j < d.len() implies d[i] != d[j] by {
        assert(d[i][0] != d[j][0]);
    }
    assert forall|c: int, t: Trit| 0 <= c < d.len() implies #[trigger] ext[ext_slot(c, t)] == if d.contains(
        d[c].push(t),
    ) {
        Some(first_index(d, d[c].push(t)) as LzwCode)
    } else {
        None
    } by {
        if d.contains(d[c].push(t)) {
            let j = choose|j: int| 0 <= j < d.len() && d[j] == d[c].push(t);
            assert(d[j].len() == 1);
        }
    }
}

/// Learning the string `d[w] + t`, which the dictionary lacks, keeps both the
/// dictionary and its extension table well formed.
#[verifier::spinoff_prover]
#[verifier::rlimit(40)]
proof fn lemma_tables_learn(d: Seq<Seq<Trit>>, ext: Seq<Option<LzwCode>>, w: int, t: Trit)
    requires
        dict_wf(d),
        ext_table_of(ext, d),
        0 <= w < d.len(),
        d.len() < LZW_CODE_LIMIT,
        !d.contains(d[w].push(t)),
    ensures
        dict_wf(d.push(d[w].push(t))),
        ext_table_of(
            ext.update(ext_slot(w, t), Some(d.len() as LzwCode)) + seq![
                None::<LzwCode>,
                None::<LzwCode>,
                None::<LzwCode>,
            ],
            d.push(d[w].push(t)),
        ),
{
    let wc = d[w].push(t);
    let d2 = d.push(wc);
    let n = d.len() as int;
    let ext2 = ext.update(ext_slot(w, t), Some(d.len() as LzwCode)) + seq![
        None::<LzwCode>,
        None::<LzwCode>,
        None::<LzwCode>,
    ];
    lemma_first_index_push_new(d, wc);
    assert(d2.take(3) =~= d.take(3));
    assert(wc.drop_last() =~= d[w]);
    assert forall|m: int| 0 <= m < d2.len() implies (#[trigger] d2[m]).len() >= 1 && (d2[m].len()
        >= 2 ==> d2.contains(d2[m].drop_last())) by {
        if m < n {
            assert(d2[m] == d[m]);
            if d[m].len() >= 2 {
                let j = choose|j: int| 0 <= j < d.len() && d[j] == d[m].drop_last();
                assert(d2[j] == d[j]);
            }
        } else {
            assert(d2[w] == d[w]);
        }
    }
    assert forall|c: int, u: Trit| 0 <= c < d2.len() implies #[trigger] ext2[ext_slot(c, u)]
        == if d2.contains(d2[c].push(u)) {
        Some(first_index(d2, d2[c].push(u)) as LzwCode)
    } else {
        None
    } by {
        let x = d2[c].push(u);
        if c == n {
            assert(ext2[ext_slot(c, u)] == None::<LzwCode>);
            if d2.contains(x) {
                let j = choose|j: int| 0 <= j < d2.len() && d2[j] == x;
                assert(x.len() == wc.len() + 1);
                assert(j != n);
                assert(d[j] == x);
                assert(d.contains(d[j].drop_last()));
                assert(x.drop_last() =~= wc);
            }
        } else {
            assert(d2[c] == d[c]);
            if c == w && u == t {
                assert(ext2[ext_slot(c, u)] == Some(d.len() as LzwCode));
                assert(x == wc);
            } else {
                assert(ext_slot(c, u) != ext_slot(w, t));
                assert(ext2[ext_slot(c, u)] == ext[ext_slot(c, u)]);
                if x == wc {
                    assert(x.drop_last() =~= d[c]);
                    assert(wc.drop_last() =~= d[w]);
                    assert(x[x.len() - 1] == u);
                    assert(wc[wc.len() - 1] == t);
                    if c != w {
                        if c < w {
                            assert(d[c] != d[w]);
                        } else {
                            assert(d[w] != d[c]);
                        }
                    }
                }
                if d.contains(x) {
                    lemma_first_index_push_old(d, wc, x);
                    let j = choose|j: int| 0 <= j < d.len() && d[j] == x;
                    assert(d2[j] == x);
                } else {
                    assert forall|j: int| 0 <= j < d2.len() implies d2[j] != x by {
                        if j < n {
                            assert(d2[j] == d[j]);
                        }
                    }
                }
            }
        }
    }
}

/// Compress a ternary stream using LZW adapted for the {-1,0,+1} alphabet.
pub fn lzw_compress(data: &[Trit]) -> (codes: Vec<LzwCode>)
    ensures
        codes@ == lzw_encode(data@),
{
    if data.len() == 0 {
        return Vec::new();
    }
    let ghost mut d = initial_dict();
    let mut ext: Vec<Option<LzwCode>> = Vec::new();
    let mut k: usize = 0;
    while k < 9
        invariant
            0 <= k <= 9,
            ext@ =~= Seq::new(k as nat, |j: int| None::<LzwCode>),
        decreases 9 - k,
    {
        ext.push(None);
        k = k + 1;
    }
    proof {
        lemma_initial_tables(ext@);
    }
    let mut next_code: LzwCode = 3;
    let mut output: Vec<LzwCode> = Vec::new();
    let mut w_code: LzwCode = 0;
    let mut has_w = false;
    let mut i: usize = 0;
    assert(data@.take(0) =~= Seq::<Trit>::empty());
    while i < data.len()
        invariant
            0 <= i <= data@.len(),
            dict_wf(d),
            ext_table_of(ext@, d),
            next_code as int == d.len(),
            ({
                let st = encoder_run(data@.take(i as int));
                &&& st.dict == d
                &&& st.out == output@
                &&& (has_w <==> st.w.len() > 0)
                &&& (has_w ==> w_code < d.len() && st.w == d[w_code as int])
            }),
        decreases data@.len() - i,
    {
        let t = data[i];
        let ti = trit_position(t);
        let ghost st = encoder_run(data@.take(i as int));
        proof {
            assert(data@.take(i + 1).drop_last() =~= data@.take(i as int));
            assert(d[trit_index(t)] == d.take(3)[trit_index(t)]);
            assert(d[trit_index(t)] =~= seq![t]);
        }
        if !has_w {
            proof {
                assert(st.w.push(t) =~= seq![t]);
            }
            w_code = ti as LzwCode;
            has_w = true;
        } else {
            let slot = 3 * (w_code as usize) + ti;
            proof {
                assert(slot == ext_slot(w_code as int, t));
            }
            match ext[slot] {
                Some(c) => {
                    proof {
                        lemma_first_index_present(d, d[w_code as int].push(t));
                    }
                    w_code = c;
                },
                None => {
                    proof {
                        lemma_first_index_distinct(d, w_code as int);
                    }
                    output.push(w_code);
                    if next_code < LZW_CODE_LIMIT {
                        proof {
                            lemma_tables_learn(d, ext@, w_code as int, t);
                        }
                        let ghost e0 = ext@;
                        ext.set(slot, Some(next_code));
                        ext.push(None);
                        ext.push(None);
                        ext.push(None);
                        proof {
                            assert(ext@ =~= e0.update(ext_slot(w_code as int, t), Some(next_code))
                                + seq![None::<LzwCode>, None::<LzwCode>, None::<LzwCode>]);
                            d = d.push(d[w_code as int].push(t));
                        }
                        next_code = next_code + 1;
                    }
                    proof {
                        assert(d[trit_index(t)] == d.take(3)[trit_index(t)]);
                    }
                    w_code = ti as LzwCode;
                },
            }
        }
        i = i + 1;
    }
    assert(data@.take(data@.len() as int) =~= data@);
    if has_w {
        proof {
            lemma_first_index_distinct(d, w_code as int);
        }
        output.push(w_code);
    }
    output
}

/// State of the decoder: its dictionary, the string decoded last and the output so far.
pub struct DecoderState {
    pub dict: Seq<Seq<Trit>>,
    pub prev: Seq<Trit>,
    pub out: Seq<Trit>,
}

/// The decoder reads the first code; `None` when it names no single trit.
pub open spec fn decoder_start(code: LzwCode) -> Option<DecoderState> {
    if code < 3 {
        let e = initial_dict()[code as int];
        Some(DecoderState { dict: initial_dict(), prev: e, out: e })
    } else {
        None
    }
}

/// The string a later code stands for: a known entry; the code about to be
/// learned, which is the previous string followed by its own first trit; or,
/// for any other code, nothing.
pub open spec fn decoder_entry(st: DecoderState, code: LzwCode) -> Seq<Trit> {
    if code < st.dict.len() {
        st.dict[code as int]
    } else if code == st.dict.len() && st.prev.len() > 0 {
        st.prev.push(st.prev[0])
    } else {
        seq![]
    }
}

/// The decoder reads a later code: it outputs the code's string and, while the
/// dictionary has room, learns the previous string followed by the first trit of
/// this one. `None` when it would learn from a string that is empty.
pub open spec fn decoder_step(st: DecoderState, code: LzwCode) -> Option<DecoderState> {
    let entry = decoder_entry(st, code);
    if st.dict.len() < LZW_CODE_LIMIT && st.prev.len() > 0 {
        if entry.len() == 0 {
            None
        } else {
            Some(
                DecoderState {
                    dict: st.dict.push(st.prev.push(entry[0])),
                    prev: entry,
                    out: st.out + entry,
                },
            )
        }
    } else {
        Some(DecoderState { dict: st.dict, prev: entry, out: st.out + entry })
    }
}

/// The decoder state after reading all of a non-empty `codes`.
pub open spec fn decoder_run(codes: Seq<LzwCode>) -> Option<DecoderState>
    recommends
        codes.len() > 0,
    decreases codes.len(),
{
    if codes.len() <= 1 {
        decoder_start(codes[0])
    } else {
        match decoder_run(codes.drop_last()) {
            Some(st) => decoder_step(st, codes.last()),
            None => None,
        }
    }
}

/// The LZW decoding of `codes`; `None` for the code streams on which decoding
/// cannot proceed.
pub open spec fn lzw_decode(codes: Seq<LzwCode>) -> Option<Seq<Trit>> {
    if codes.len() == 0 {
        Some(seq![])
    } else {
        match decoder_run(codes) {
            Some(st) => Some(st.out),
            None => None,
        }
    }
}

/// Decompress LZW codes back to a ternary stream.
pub fn lzw_decompress(codes: &[LzwCode]) -> (data: Vec<Trit>)
    requires
        lzw_decode(codes@) is Some,
    ensures
        lzw_decode(codes@) == Some(data@),
{
    match lzw_decompress_checked(codes) {
        Some(data) => data,
        None => Vec::new(),
    }
}

/// Decompress LZW codes back to a ternary stream, or `None` for a code stream on
/// which decoding cannot proceed: a first code that names no single trit, or a
/// later code that stands for nothing while the dictionary is still learning.
pub fn lzw_decompress_checked(codes: &[LzwCode]) -> (data: Option<Vec<Trit>>)
    ensures
        match data {
            Some(d) => lzw_decode(codes@) == Some(d@),
            None => lzw_decode(codes@) is None,
        },
{
    if codes.len() == 0 {
        return Some(Vec::new());
    }
    assert(codes@.take(1) =~= seq![codes@[0]]);
    if codes[0] >= 3 {
        proof {
            if decoder_run(codes@) is Some {
                lemma_decoder_run_prefix(codes@, 1);
            }
        }
        return None;
    }
    let mut dict = initial_dict_vec();
    let mut next_code: LzwCode = 3;
    let first = codes[0] as usize;
    let mut prev = copy_trits(dict[first].as_slice());
    let mut result: Vec<Trit> = Vec::new();
    append_trits(&mut result, prev.as_slice());
    assert(result@ =~= prev@);
    let mut i: usize = 1;
    while i < codes.len()
        invariant
            1 <= i <= codes@.len(),
            next_code as int == dict@.len() <= LZW_CODE_LIMIT,
            decoder_run(codes@.take(i as int)) == Some(
                DecoderState { dict: trit_seqs(dict@), prev: prev@, out: result@ },
            ),
        decreases codes@.len() - i,
    {
        let code = codes[i];
        let ghost st = DecoderState { dict: trit_seqs(dict@), prev: prev@, out: result@ };
        proof {
            assert(codes@.take(i + 1).drop_last() =~= codes@.take(i as int));
        }
        let entry: Vec<Trit> = if (code as usize) < dict.len() {
            copy_trits(dict[code as usize].as_slice())
        } else if code == next_code && prev.len() > 0 {
            let mut e = copy_trits(prev.as_slice());
            e.push(prev[0]);
            e
        } else {
            Vec::new()
        };
        assert(entry@ =~= decoder_entry(st, code));
        if next_code < LZW_CODE_LIMIT && prev.len() > 0 && entry.len() == 0 {
            proof {
                if decoder_run(codes@) is Some {
                    lemma_decoder_run_prefix(codes@, i + 1);
                }
            }
            return None;
        }
        append_trits(&mut result, entry.as_slice());
        if next_code < LZW_CODE_LIMIT && prev.len() > 0 {
            let mut new_entry = copy_trits(prev.as_slice());
            new_entry.push(entry[0]);
            dict.push(new_entry);
            next_code = next_code + 1;
            assert(trit_seqs(dict@) =~= st.dict.push(st.prev.push(entry@[0])));
        }
        prev = entry;
        i = i + 1;
    }
    assert(codes@.take(codes@.len() as int) =~= codes@);
    Some(result)
}

/// Decoding a prefix of a decodable code stream succeeds as well.
proof fn lemma_decoder_run_prefix(codes: Seq<LzwCode>, n: int)
    requires
        1 <= n <= codes.len(),
        decoder_run(codes) is Some,
    ensures
        decoder_run(codes.take(n)) is Some,
    decreases codes.len(),
{
    if n < codes.len() {
        assert(codes.drop_last().take(n) =~= codes.take(n));
        lemma_decoder_run_prefix(codes.drop_last(), n);
    } else {
        assert(codes.take(n) =~= codes);
    }
}

/// The strings of `ss` one after the other.
pub open spec fn concat_all(ss: Seq<Seq<Trit>>) -> Seq<Trit>
    decreases ss.len(),
{
    if ss.len() == 0 {
        seq![]
    } else {
        concat_all(ss.drop_last()) + ss.last()
    }
}

/// The dictionary in force when the `k`-th of the strings `a` is coded: the single
/// trits, then each earlier string followed by the first trit of the next one, up
/// to the code limit.
pub open spec fn dict_before(a: Seq<Seq<Trit>>, k: int) -> Seq<Seq<Trit>> {
    let d = initial_dict() + Seq::new(k as nat, |j: int| a[j].push(a[j + 1][0]));
    if d.len() <= LZW_CODE_LIMIT {
        d
    } else {
        d.take(LZW_CODE_LIMIT as int)
    }
}

/// The `k`-th code of `out` is the first index of the `k`-th string of `a` in the
/// dictionary in force at that point, where that string is present.
pub open spec fn code_names_phrase(out: Seq<LzwCode>, a: Seq<Seq<Trit>>, k: int) -> bool {
    &&& dict_before(a, k).contains(a[k])
    &&& out[k] as int == first_index(dict_before(a, k), a[k])
}

/// The `k`-th of the strings `a` is as long as the dictionary in force allows:
/// followed by the first trit of the next string, it is not in that dictionary.
pub open spec fn phrase_is_maximal(a: Seq<Seq<Trit>>, k: int) -> bool {
    !dict_before(a, k).contains(a[k].push(a[k + 1][0]))
}

/// The encoder state after reading `s` splits `s` into the emitted phrases and
/// the current match, and every emitted code names its phrase.
pub open spec fn phrases_inv(st: EncoderState, s: Seq<Trit>) -> bool {
    let a = st.phrases.push(st.w);
    &&& concat_all(st.phrases) + st.w == s
    &&& forall|k: int| 0 <= k < a.len() ==> (#[trigger] a[k]).len() > 0
    &&& st.dict == dict_before(a, st.phrases.len() as int)
    &&& st.dict.contains(st.w)
    &&& st.out.len() == st.phrases.len()
    &&& forall|k: int| 0 <= k < st.phrases.len() ==> #[trigger] code_names_phrase(st.out, a, k)
    &&& forall|k: int| 0 <= k < st.phrases.len() ==> #[trigger] phrase_is_maximal(a, k)
}

proof fn lemma_dict_before_agree(a: Seq<Seq<Trit>>, b: Seq<Seq<Trit>>, k: int)
    requires
        0 <= k < a.len(),
        k < b.len(),
        forall|j: int| 0 <= j < k ==> a[j] == b[j],
        forall|j: int| 0 < j <= k ==> a[j].len() > 0 && b[j].len() > 0 && a[j][0] == b[j][0],
    ensures
        dict_before(a, k) == dict_before(b, k),
{
    assert(Seq::new(k as nat, |j: int| a[j].push(a[j + 1][0])) =~= Seq::new(
        k as nat,
        |j: int| b[j].push(b[j + 1][0]),
    ));
}

proof fn lemma_dict_before_next(a: Seq<Seq<Trit>>, k: int)
    requires
        0 <= k,
        k + 1 < a.len(),
    ensures
        dict_before(a, k).len() == if 3 + k <= LZW_CODE_LIMIT { 3 + k } else { LZW_CODE_LIMIT as int },
        dict_before(a, k).take(3) == initial_dict(),
        dict_before(a, k + 1) == if 3 + k < LZW_CODE_LIMIT {
            dict_before(a, k).push(a[k].push(a[k + 1][0]))
        } else {
            dict_before(a, k)
        },
{
    let d0 = initial_dict() + Seq::new(k as nat, |j: int| a[j].push(a[j + 1][0]));
    let d1 = initial_dict() + Seq::new((k + 1) as nat, |j: int| a[j].push(a[j + 1][0]));
    assert(d1 =~= d0.push(a[k].push(a[k + 1][0])));
    assert(d0.take(3) =~= initial_dict());
    if 3 + k < LZW_CODE_LIMIT {
    } else {
        assert(d1.take(LZW_CODE_LIMIT as int) =~= d0.take(LZW_CODE_LIMIT as int));
    }
    assert(dict_before(a, k).take(3) =~= initial_dict());
}

proof fn lemma_dict_before_prefix(a: Seq<Seq<Trit>>, k: int)
    requires
        0 <= k,
    ensures
        dict_before(a, k).len() >= 3,
        dict_before(a, k).take(3) == initial_dict(),
{
    let d0 = initial_dict() + Seq::new(k as nat, |j: int| a[j].push(a[j + 1][0]));
    assert(d0.take(3) =~= initial_dict());
    assert(dict_before(a, k).take(3) =~= initial_dict());
}

proof fn lemma_single_in_initial(d: Seq<Seq<Trit>>, t: Trit)
    requires
        d.len() >= 3,
        d.take(3) == initial_dict(),
    ensures
        d.contains(seq![t]),
{
    let single = seq![t];
    let j: int = match t {
        Trit::Neg => 0,
        Trit::Zero => 1,
        Trit::Pos => 2,
    };
    assert(d[j] == d.take(3)[j]);
    assert(d[j] =~= single);
}

/// Reading `s` leaves the encoder in a state that satisfies `phrases_inv`.
proof fn lemma_encoder_phrases(s: Seq<Trit>)
    requires
        s.len() > 0,
    ensures
        phrases_inv(encoder_run(s), s),
    decreases s.len(),
{
    let t = s.last();
    let s0 = s.drop_last();
    let st = encoder_run(s0);
    let st2 = encoder_run(s);
    assert(st2 == encoder_step(st, t));
    if s0.len() == 0 {
        assert(st == encoder_start());
        assert(seq![t] =~= st.w.push(t));
        assert(initial_dict().take(3) =~= initial_dict());
        lemma_single_in_initial(initial_dict(), t);
        let a = st2.phrases.push(st2.w);
        assert(dict_before(a, 0) =~= initial_dict());
        assert(concat_all(st2.phrases) + st2.w =~= s);
    } else {
        lemma_encoder_phrases(s0);
        let a = st.phrases.push(st.w);
        let n = st.phrases.len() as int;
        let wc = st.w.push(t);
        if st.dict.contains(wc) {
            let a2 = st2.phrases.push(st2.w);
            assert(a[n].len() > 0);
            assert(wc[0] == st.w[0]);
            assert forall|j: int| 0 <= j <= n implies a2[j].len() > 0 && a[j].len() > 0 && a2[j][0]
                == a[j][0] by {
                assert(a[j].len() > 0);
            }
            assert forall|k: int| 0 <= k <= n implies dict_before(a2, k) == dict_before(a, k) by {
                lemma_dict_before_agree(a2, a, k);
            }
            assert forall|k: int| 0 <= k < n implies #[trigger] code_names_phrase(st2.out, a2, k) by {
                assert(code_names_phrase(st.out, a, k));
            }
            assert forall|k: int| 0 <= k < n implies #[trigger] phrase_is_maximal(a2, k) by {
                assert(phrase_is_maximal(a, k));
                assert(a2[k] == a[k]);
                assert(a2[k + 1][0] == a[k + 1][0]);
            }
            assert(s =~= s0.push(t));
            assert(concat_all(st.phrases) + wc =~= (concat_all(st.phrases) + st.w).push(t));
            assert(concat_all(st2.phrases) + st2.w =~= s);
        } else {
            let a2 = st2.phrases.push(st2.w);
            assert(a2 =~= a.push(seq![t]));
            assert forall|k: int| 0 <= k <= n implies dict_before(a2, k) == dict_before(a, k) by {
                lemma_dict_before_agree(a2, a, k);
            }
            lemma_dict_before_next(a2, n);
            assert(a2[n + 1][0] == t);
            assert(a2[n].push(a2[n + 1][0]) =~= wc);
            assert(st2.dict == dict_before(a2, n + 1));
            lemma_dict_before_next(a2, n);
            lemma_dict_before_prefix(a2, n + 1);
            lemma_single_in_initial(st2.dict, t);
            assert forall|k: int| 0 <= k < n + 1 implies #[trigger] code_names_phrase(st2.out, a2, k) by {
                if k < n {
                    assert(code_names_phrase(st.out, a, k));
                } else {
                    lemma_first_index_present(st.dict, st.w);
                }
            }
            assert forall|k: int| 0 <= k < n + 1 implies #[trigger] phrase_is_maximal(a2, k) by {
                if k < n {
                    assert(phrase_is_maximal(a, k));
                    assert(a2[k] == a[k]);
                    assert(a2[k + 1] == a[k + 1]);
                } else {
                    assert(a2[k].push(a2[k + 1][0]) =~= wc);
                }
            }
            assert(st2.phrases.drop_last() =~= st.phrases);
            assert(concat_all(st2.phrases) + st2.w =~= s);
        }
    }
}

/// The decoder, fed the first `k + 1` codes of the encoding of `s`, holds the
/// encoder's dictionary from that point, the `k`-th phrase, and the first
/// `k + 1` phrases as output.
proof fn lemma_decoder_follows(s: Seq<Trit>, k: int)
    requires
        s.len() > 0,
        0 <= k <= encoder_run(s).phrases.len(),
    ensures
        ({
            let st = encoder_run(s);
            let a = st.phrases.push(st.w);
            decoder_run(lzw_encode(s).take(k + 1)) == Some(
                DecoderState { dict: dict_before(a, k), prev: a[k], out: concat_all(a.take(k + 1)) },
            )
        }),
    decreases k,
{
    let st = encoder_run(s);
    let a = st.phrases.push(st.w);
    let c = lzw_encode(s);
    let n = st.phrases.len() as int;
    lemma_encoder_phrases(s);
    assert(c.len() == n + 1);
    assert(code_names_phrase(c, a, k)) by {
        if k < n {
            assert(code_names_phrase(st.out, a, k));
        } else {
            lemma_first_index_present(st.dict, st.w);
        }
    }
    lemma_first_index_present(dict_before(a, k), a[k]);
    if k == 0 {
        assert(c.take(1) =~= seq![c[0]]);
        assert(dict_before(a, 0) =~= initial_dict());
        assert(a.take(1).drop_last() =~= Seq::<Seq<Trit>>::empty());
        assert(concat_all(a.take(1).drop_last()) =~= Seq::<Trit>::empty());
        assert(a.take(1).last() == a[0]);
        assert(concat_all(a.take(1)) =~= a[0]);
    } else {
        lemma_decoder_follows(s, k - 1);
        assert(c.take(k + 1).drop_last() =~= c.take(k));
        assert(a.take(k + 1).drop_last() =~= a.take(k));
        let d = dict_before(a, k - 1);
        let prev = a[k - 1];
        let dst = DecoderState { dict: d, prev: prev, out: concat_all(a.take(k)) };
        lemma_dict_before_next(a, k - 1);
        let code = c[k];
        assert(a[k].len() > 0 && prev.len() > 0);
        if (code as int) < d.len() {
            assert(dict_before(a, k)[code as int] == d[code as int]);
        } else {
            assert(dict_before(a, k) == d.push(prev.push(a[k][0])));
            assert(a[k] == prev.push(a[k][0]));
            assert(a[k][0] == prev[0]);
            assert(decoder_entry(dst, code) =~= a[k]);
        }
        assert(decoder_entry(dst, code) == a[k]);
    }
}

/// LZW decompression undoes LZW compression: decoding the encoding of any trit
/// stream succeeds and gives the stream back.
pub proof fn lemma_lzw_roundtrip(s: Seq<Trit>)
    ensures
        lzw_decode(lzw_encode(s)) == Some(s),
{
    if s.len() > 0 {
        let st = encoder_run(s);
        let a = st.phrases.push(st.w);
        let n = st.phrases.len() as int;
        lemma_encoder_phrases(s);
        lemma_decoder_follows(s, n);
        assert(lzw_encode(s).take(n + 1) =~= lzw_encode(s));
        assert(a.take(n + 1) =~= a);
        assert(a.drop_last() =~= st.phrases);
    }
}

/// `codes` code `s` by LZW as the strings `a`: the strings, none of them empty,
/// make up `s` one after the other; each code is the code of its string in the
/// dictionary in force at that point (the single trits, then each earlier string
/// followed by the first trit of the next one, up to the code limit); and each
/// string but the last is the longest match there: followed by the first trit
/// of the next string, it is not in that dictionary.
pub open spec fn is_lzw_parse(s: Seq<Trit>, a: Seq<Seq<Trit>>, codes: Seq<LzwCode>) -> bool {
    &&& a.len() == codes.len()
    &&& concat_all(a) == s
    &&& forall|k: int| 0 <= k < a.len() ==> (#[trigger] a[k]).len() > 0
    &&& forall|k: int| 0 <= k < a.len() ==> #[trigger] code_names_phrase(codes, a, k)
    &&& forall|k: int| 0 <= k && k + 1 < a.len() ==> #[trigger] phrase_is_maximal(a, k)
}

/// LZW compression parses its input greedily: its codes code the input as a
/// sequence of strings, each the longest match in the dictionary built from the
/// strings before it.
pub proof fn lemma_lzw_greedy_parse(s: Seq<Trit>)
    ensures
        exists|a: Seq<Seq<Trit>>| is_lzw_parse(s, a, lzw_encode(s)),
{
    if s.len() == 0 {
        let a = Seq::<Seq<Trit>>::empty();
        assert(concat_all(a) =~= s);
        assert(is_lzw_parse(s, a, lzw_encode(s)));
    } else {
        let st = encoder_run(s);
        let a = st.phrases.push(st.w);
        let n = st.phrases.len() as int;
        let c = lzw_encode(s);
        lemma_encoder_phrases(s);
        assert(a.drop_last() =~= st.phrases);
        assert(a.last() == st.w);
        assert forall|k: int| 0 <= k < a.len() implies #[trigger] code_names_phrase(c, a, k) by {
            if k < n {
                assert(code_names_phrase(st.out, a, k));
            } else {
                lemma_first_index_present(st.dict, st.w);
            }
        }
        assert(phrases_inv(st, s));
        assert forall|k: int| 0 <= k && k + 1 < a.len() implies #[trigger] phrase_is_maximal(a, k) by {
            assert(0 <= k < st.phrases.len());
        }
        assert(is_lzw_parse(s, a, c));
    }
}

} // verus!
