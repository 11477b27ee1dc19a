//! Dictionary compression: frequent trit patterns are replaced by their codes.
use vstd::prelude::*;

use crate::trit::{
    Trit,
    trit_seqs,
    first_index,
    find_entry,
    lemma_first_index_present,
};

verus! {

/// The longest pattern that compression tries to match.
pub const MAX_MATCH_LEN: usize = 16;

/// The most patterns a dictionary holds.
pub const MAX_DICTIONARY_SIZE: usize = 256;

/// A token in dictionary-compressed output.
#[derive(Debug, Clone, PartialEq, Eq, Structural)]
pub enum DictToken {
    Literal(Trit),
    Pattern { code: usize, len: usize },
}

/// A simple dictionary-based compressor that finds repeated ternary patterns.
pub struct DictionaryCompressor {
    /// The patterns, each under the code that is its index.
    dictionary: Vec<Vec<Trit>>,
}

/// No pattern occurs twice.
pub open spec fn distinct_patterns(d: Seq<Seq<Trit>>) -> bool {
    forall|i: int, j: int| 0 <= i < j < d.len() ==> d[i] != d[j]
}

impl View for DictionaryCompressor {
    type V = Seq<Seq<Trit>>;

    /// The patterns of the dictionary, the pattern of code `c` at index `c`.
    closed spec fn view(&self) -> Seq<Seq<Trit>> {
        trit_seqs(self.dictionary@)
    }
}

impl DictionaryCompressor {
    #[verifier::type_invariant]
    closed spec fn patterns_distinct(self) -> bool {
        distinct_patterns(trit_seqs(self.dictionary@))
    }

    /// A compressor with an empty dictionary.
    pub fn new() -> (c: Self)
        ensures
            c@ == Seq::<Seq<Trit>>::empty(),
    {
        let c = DictionaryCompressor { dictionary: Vec::new() };
        assert(c@ =~= Seq::<Seq<Trit>>::empty());
        c
    }

    /// The number of patterns in the dictionary.
    pub fn dictionary_size(&self) -> (n: usize)
        ensures
            n == self@.len(),
    {
        self.dictionary.len()
    }

    /// Build a dictionary from data by finding frequent n-grams: the patterns of
    /// `min_len` to `max_len` trits that occur at least `min_freq` times (and at
    /// least once), most frequent first, at most `MAX_DICTIONARY_SIZE` of them.
    pub fn build_dictionary(&mut self, data: &[Trit], min_len: usize, max_len: usize, min_freq: usize)
        requires
            min_len > 0 || data@.len() < usize::MAX,
        ensures
            distinct_patterns(final(self)@),
            final(self)@.len() <= MAX_DICTIONARY_SIZE,
            forall|i: int|
                0 <= i < final(self)@.len() ==> qualifies(
                    data@,
                    #[trigger] final(self)@[i],
                    min_len as int,
                    max_len as int,
                    min_freq as int,
                ),
            forall|i: int, j: int|
                0 <= i < j < final(self)@.len() ==> occurrences(data@, final(self)@[i])
                    >= occurrences(data@, final(self)@[j]),
            forall|p: Seq<Trit>|
                qualifies(data@, p, min_len as int, max_len as int, min_freq as int)
                    && !final(self)@.contains(p) ==> final(self)@.len() == MAX_DICTIONARY_SIZE
                    && forall|i: int|
                    0 <= i < final(self)@.len() ==> occurrences(data@, #[trigger] final(self)@[i])
                        >= occurrences(data@, p),
    {
        let (pats, counts) = count_patterns(data, min_len, max_len);
        let (mut cand_pats, mut cand_counts) = frequent_patterns(&pats, &counts, min_freq);
        let ghost dv = data@;
        let ghost lo = min_len as int;
        let ghost hi = max_len as int;
        let ghost mf = min_freq as int;
        let mut dict: Vec<Vec<Trit>> = Vec::new();
        proof {
            let ps = trit_seqs(pats@);
            let cs = trit_seqs(cand_pats@);
            assert forall|m: int| 0 <= m < cand_counts@.len() implies #[trigger] cand_counts@[m]
                == occurrences(dv, cs[m]) && qualifies(dv, cs[m], lo, hi, mf) by {
                assert(ps.contains(cs[m]));
                let k = choose|k: int| 0 <= k < ps.len() && ps[k] == cs[m];
                assert(counts@[k] == occurrences(dv, ps[k]));
            }
            assert forall|p: Seq<Trit>| qualifies(dv, p, lo, hi, mf) implies trit_seqs(
                dict@,
            ).contains(p) || cs.contains(p) by {
                assert(ps.contains(p));
                let k = choose|k: int| 0 <= k < ps.len() && ps[k] == p;
                assert(counts@[k] == occurrences(dv, ps[k]));
                assert(cs.contains(ps[k]));
            }
            assert(trit_seqs(dict@) =~= Seq::<Seq<Trit>>::empty());
        }
        while dict.len() < MAX_DICTIONARY_SIZE && cand_pats.len() > 0
            invariant
                dict@.len() <= MAX_DICTIONARY_SIZE,
                cand_pats@.len() == cand_counts@.len(),
                forall|m: int|
                    0 <= m < cand_counts@.len() ==> #[trigger] cand_counts@[m] == occurrences(
                        dv,
                        trit_seqs(cand_pats@)[m],
                    ) && qualifies(dv, trit_seqs(cand_pats@)[m], lo, hi, mf),
                forall|i: int|
                    0 <= i < dict@.len() ==> qualifies(dv, #[trigger] trit_seqs(dict@)[i], lo, hi, mf),
                distinct_patterns(trit_seqs(dict@)),
                distinct_patterns(trit_seqs(cand_pats@)),
                forall|i: int, m: int|
                    0 <= i < dict@.len() && 0 <= m < cand_pats@.len() ==> trit_seqs(dict@)[i]
                        != trit_seqs(cand_pats@)[m] && occurrences(dv, trit_seqs(dict@)[i])
                        >= cand_counts@[m],
                forall|i: int, j: int|
                    0 <= i < j < dict@.len() ==> occurrences(dv, trit_seqs(dict@)[i]) >= occurrences(
                        dv,
                        trit_seqs(dict@)[j],
                    ),
                forall|p: Seq<Trit>|
                    qualifies(dv, p, lo, hi, mf) ==> trit_seqs(dict@).contains(p) || trit_seqs(
                        cand_pats@,
                    ).contains(p),
            decreases cand_pats@.len(),
        {
            let ghost d0 = trit_seqs(dict@);
            let ghost c0 = trit_seqs(cand_pats@);
            let ghost n0 = cand_counts@;
            let k = heaviest_index(&cand_counts);
            let p = cand_pats.remove(k);
            cand_counts.remove(k);
            dict.push(p);
            proof {
                let d1 = trit_seqs(dict@);
                let c1 = trit_seqs(cand_pats@);
                assert(d1 =~= d0.push(c0[k as int]));
                assert(c1 =~= c0.remove(k as int));
                assert(cand_counts@ =~= n0.remove(k as int));
                assert forall|p: Seq<Trit>| qualifies(dv, p, lo, hi, mf) implies d1.contains(p)
                    || c1.contains(p) by {
                    if d0.contains(p) {
                        let i = choose|i: int| 0 <= i < d0.len() && d0[i] == p;
                        assert(d1[i] == p);
                    } else {
                        let m = choose|m: int| 0 <= m < c0.len() && c0[m] == p;
                        if m == k {
                            assert(d1[d0.len() as int] == p);
                        } else if m < k {
                            assert(c1[m] == p);
                        } else {
                            assert(c1[m - 1] == p);
                        }
                    }
                }
                assert forall|m: int| 0 <= m < cand_counts@.len() implies #[trigger] cand_counts@[m]
                    == occurrences(dv, c1[m]) && qualifies(dv, c1[m], lo, hi, mf) by {
                    if m < k {
                        assert(n0[m] == occurrences(dv, c0[m]));
                    } else {
                        assert(n0[m + 1] == occurrences(dv, c0[m + 1]));
                    }
                }
                assert(n0[k as int] == occurrences(dv, c0[k as int]));
            }
        }
        self.dictionary = dict;
        proof {
            let d = trit_seqs(self.dictionary@);
            assert forall|p: Seq<Trit>|
                qualifies(dv, p, lo, hi, mf) && !d.contains(p) implies d.len() == MAX_DICTIONARY_SIZE
                && forall|i: int|
                0 <= i < d.len() ==> occurrences(dv, #[trigger] d[i]) >= occurrences(dv, p) by {
                let m = choose|m: int| 0 <= m < trit_seqs(cand_pats@).len() && trit_seqs(
                    cand_pats@,
                )[m] == p;
                assert(cand_counts@[m] == occurrences(dv, p));
            }
        }
    }

    /// Compress data by replacing known patterns with their codes.
    /// Returns a mixed stream: literal trits and pattern codes.
    pub fn compress(&self, data: &[Trit]) -> (tokens: Vec<DictToken>)
        ensures
            tokens@ == greedy_tokens(self@, data@),
            tokens_span(tokens@) == data@.len(),
            forall|k: int|
                0 <= k < tokens@.len() ==> is_longest_match(
                    self@,
                    data@,
                    tokens_span(tokens@.take(k)),
                    #[trigger] tokens@[k],
                ),
    {
        let mut result: Vec<DictToken> = Vec::new();
        let mut i: usize = 0;
        let n = data.len();
        assert(data@.skip(0) =~= data@);
        while i < n
            invariant
                n == data@.len(),
                0 <= i <= n,
                result@ + greedy_tokens(self@, data@.skip(i as int)) == greedy_tokens(
                    self@,
                    data@,
                ),
            decreases n - i,
        {
            let ghost rest = data@.skip(i as int);
            let mut best_len: usize = 0;
            let mut best_code: Option<usize> = None;
            let max_pat = if n - i < MAX_MATCH_LEN {
                n - i
            } else {
                MAX_MATCH_LEN
            };
            let mut len = max_pat;
            while len >= 2
                invariant_except_break
                    0 <= len <= max_pat,
                    best_len == 0,
                    best_code is None,
                    best_match(self@, rest, max_pat as int) == best_match(self@, rest, len as int),
                invariant
                    max_pat <= rest.len(),
                    i + max_pat <= n,
                    n == data@.len(),
                    rest == data@.skip(i as int),
                ensures
                    best_len == 0 ==> best_code is None && best_match(self@, rest, max_pat as int)
                        is None,
                    best_len > 0 ==> best_code is Some && best_match(self@, rest, max_pat as int)
                        == Some((best_code->0 as int, best_len as int)),
                decreases len,
            {
                let window = &data[i..i + len];
                assert(window@ =~= rest.take(len as int));
                let k = find_entry(&self.dictionary, window);
                if k < self.dictionary.len() {
                    best_len = len;
                    best_code = Some(k);
                    break;
                }
                len = len - 1;
            }
            proof {
                lemma_best_match_len(self@, rest, max_pat as int);
            }
            assert(best_len > 0 ==> best_code is Some && best_match(self@, rest, max_pat as int)
                == Some((best_code->0 as int, best_len as int)));
            assert(best_len == 0 ==> best_match(self@, rest, max_pat as int) is None);
            let ghost before = result@;
            if best_len > 0 {
                let code = match best_code {
                    Some(c) => c,
                    None => 0,
                };
                result.push(DictToken::Pattern { code: code, len: best_len });
                assert(rest.skip(best_len as int) =~= data@.skip(i + best_len));
                i = i + best_len;
            } else {
                result.push(DictToken::Literal(data[i]));
                assert(rest.skip(1) =~= data@.skip(i + 1));
                i = i + 1;
            }
            assert(result@ + greedy_tokens(self@, data@.skip(i as int)) =~= before
                + greedy_tokens(self@, rest));
        }
        assert(greedy_tokens(self@, data@.skip(n as int)) =~= Seq::<DictToken>::empty());
        assert(result@ + Seq::<DictToken>::empty() =~= result@);
        let dict_len = self.dictionary.len();
        proof {
            assert(self@.len() == dict_len);
            lemma_compress_longest_match(self@, data@);
        }
        result
    }

    /// Decompress tokens using the reverse dictionary.
    pub fn decompress(&self, tokens: &[DictToken]) -> (data: Vec<Trit>)
        ensures
            data@ == expand_tokens(self@, tokens@),
    {
        let mut result: Vec<Trit> = Vec::new();
        let mut i: usize = 0;
        assert(tokens@.take(0) =~= Seq::<DictToken>::empty());
        while i < tokens.len()
            invariant
                0 <= i <= tokens@.len(),
                result@ == expand_tokens(self@, tokens@.take(i as int)),
            decreases tokens@.len() - i,
        {
            assert(tokens@.take(i + 1).drop_last() =~= tokens@.take(i as int));
            match &tokens[i] {
                DictToken::Literal(t) => {
                    result.push(*t);
                },
                DictToken::Pattern { code, .. } => {
                    if *code < self.dictionary.len() {
                        let pat = &self.dictionary[*code];
                        let ghost before = result@;
                        let mut j: usize = 0;
                        while j < pat.len()
                            invariant
                                0 <= j <= pat@.len(),
                                result@ == before + pat@.take(j as int),
                            decreases pat@.len() - j,
                        {
                            result.push(pat[j]);
                            j = j + 1;
                            assert(result@ =~= before + pat@.take(j as int));
                        }
                        assert(pat@.take(pat@.len() as int) =~= pat@);
                    } else {
                        assert(result@ =~= result@ + Seq::<Trit>::empty());
                    }
                },
            }
            i = i + 1;
        }
        assert(tokens@.take(tokens@.len() as int) =~= tokens@);
        result
    }
}

/// The number of positions before `k` at which `p` occurs in `data`.
pub open spec fn occurrences_before(data: Seq<Trit>, p: Seq<Trit>, k: int) -> nat
    decreases k,
{
    if k <= 0 {
        0
    } else {
        occurrences_before(data, p, k - 1) + if k - 1 + p.len() <= data.len() && data.subrange(
            k - 1,
            k - 1 + p.len(),
        ) == p {
            1nat
        } else {
            0nat
        }
    }
}

/// The number of positions at which `p` occurs in `data`, overlapping ones included.
pub open spec fn occurrences(data: Seq<Trit>, p: Seq<Trit>) -> nat {
    occurrences_before(data, p, data.len() + 1int)
}

/// `p` belongs in a dictionary built from `data` with these parameters: its
/// length is in range and it occurs at least `min_freq` times, and at least once.
pub open spec fn qualifies(data: Seq<Trit>, p: Seq<Trit>, min_len: int, max_len: int, min_freq: int) -> bool {
    &&& min_len <= p.len() <= max_len
    &&& occurrences(data, p) >= 1
    &&& occurrences(data, p) >= min_freq
}

/// The patterns counted so far: all occurring patterns of lengths `min_len` up to
/// `len - 1`, and those of length `len` that occur before position `i`.
pub open spec fn counted(data: Seq<Trit>, p: Seq<Trit>, len: int, i: int) -> nat {
    if p.len() < len {
        occurrences(data, p)
    } else if p.len() == len {
        occurrences_before(data, p, i)
    } else {
        0
    }
}

proof fn lemma_occurrences_before_bound(data: Seq<Trit>, p: Seq<Trit>, k: int)
    requires
        k >= 0,
    ensures
        occurrences_before(data, p, k) <= k,
    decreases k,
{
    if k > 0 {
        lemma_occurrences_before_bound(data, p, k - 1);
    }
}

/// Positions from which `p` would run past the end of `data` add no occurrence.
proof fn lemma_occurrences_before_tail(data: Seq<Trit>, p: Seq<Trit>, k: int)
    requires
        data.len() - p.len() + 1 <= k <= data.len() + 1,
        k >= 0,
    ensures
        occurrences_before(data, p, k) == occurrences(data, p),
    decreases data.len() + 1 - k,
{
    if k < data.len() + 1 {
        lemma_occurrences_before_tail(data, p, k + 1);
    }
}

/// A pattern that occurs is no longer than the data.
proof fn lemma_occurrences_fit(data: Seq<Trit>, p: Seq<Trit>, k: int)
    requires
        p.len() > data.len(),
    ensures
        occurrences_before(data, p, k) == 0,
    decreases k,
{
    if k > 0 {
        lemma_occurrences_fit(data, p, k - 1);
    }
}

/// Every pattern of `min_len` to `max_len` trits that occurs in `data`, once each,
/// with its number of occurrences.
fn count_patterns(data: &[Trit], min_len: usize, max_len: usize) -> (r: (Vec<Vec<Trit>>, Vec<usize>))
    requires
        min_len > 0 || data@.len() < usize::MAX,
    ensures
        r.0@.len() == r.1@.len(),
        distinct_patterns(trit_seqs(r.0@)),
        forall|k: int|
            0 <= k < r.0@.len() ==> #[trigger] r.1@[k] == occurrences(data@, trit_seqs(r.0@)[k])
                && r.1@[k] >= 1 && min_len <= trit_seqs(r.0@)[k].len() <= max_len,
        forall|p: Seq<Trit>|
            min_len <= p.len() <= max_len && occurrences(data@, p) >= 1 ==> trit_seqs(
                r.0@,
            ).contains(p),
{
    let n = data.len();
    let mut pats: Vec<Vec<Trit>> = Vec::new();
    let mut counts: Vec<usize> = Vec::new();
    let top = if max_len < n {
        max_len
    } else {
        n
    };
    let ghost dv = data@;
    if min_len > top {
        proof {
            assert forall|p: Seq<Trit>|
                min_len <= p.len() <= max_len && occurrences(dv, p) >= 1 implies trit_seqs(
                pats@,
            ).contains(p) by {
                lemma_occurrences_fit(dv, p, dv.len() + 1int);
            }
        }
        assert(trit_seqs(pats@) =~= Seq::<Seq<Trit>>::empty());
        return (pats, counts);
    }
    let mut len = min_len;
    loop
        invariant
            n == dv.len(),
            dv == data@,
            min_len > 0 || n < usize::MAX,
            min_len <= len <= top,
            top <= n,
            top <= max_len,
            top == (if max_len < n { max_len } else { n }),
            pats@.len() == counts@.len(),
            distinct_patterns(trit_seqs(pats@)),
            forall|k: int|
                0 <= k < pats@.len() ==> #[trigger] counts@[k] == counted(
                    dv,
                    trit_seqs(pats@)[k],
                    len as int,
                    0,
                ) && counts@[k] >= 1 && min_len <= trit_seqs(pats@)[k].len() < len,
            forall|p: Seq<Trit>|
                min_len <= p.len() < len && occurrences(dv, p) >= 1 ==> trit_seqs(pats@).contains(p),
        decreases top - len,
    {
        let mut i: usize = 0;
        while i <= n - len
            invariant
                n == dv.len(),
                dv == data@,
                min_len > 0 || n < usize::MAX,
                min_len <= len <= top,
                top <= n,
                0 <= i <= n - len + 1,
                pats@.len() == counts@.len(),
                distinct_patterns(trit_seqs(pats@)),
                forall|k: int|
                    0 <= k < pats@.len() ==> #[trigger] counts@[k] == counted(
                        dv,
                        trit_seqs(pats@)[k],
                        len as int,
                        i as int,
                    ) && counts@[k] >= 1 && min_len <= trit_seqs(pats@)[k].len() <= len,
                forall|p: Seq<Trit>|
                    min_len <= p.len() <= len && counted(dv, p, len as int, i as int) >= 1
                        ==> trit_seqs(pats@).contains(p),
            decreases n - len + 1 - i,
        {
            let window = &data[i..i + len];
            let ghost w = window@;
            let ghost ps0 = trit_seqs(pats@);
            let ghost cs0 = counts@;
            assert(w == dv.subrange(i as int, i + len));
            let k = find_entry(&pats, window);
            proof {
                // counting one more position changes only the count of `w`
                assert forall|p: Seq<Trit>| p.len() == len implies #[trigger] counted(
                    dv,
                    p,
                    len as int,
                    i + 1,
                ) == counted(dv, p, len as int, i as int) + if p == w {
                    1nat
                } else {
                    0nat
                } by {}
            }
            if k < pats.len() {
                proof {
                    lemma_occurrences_before_bound(dv, w, i as int);
                }
                let c = counts[k] + 1;
                counts.set(k, c);
            } else {
                let copy = crate::trit::copy_trits(window);
                pats.push(copy);
                counts.push(1);
                proof {
                    let ps1 = trit_seqs(pats@);
                    assert(ps1 =~= ps0.push(w));
                }
            }
            proof {
                let ps1 = trit_seqs(pats@);
                assert forall|a: int| 0 <= a < pats@.len() implies #[trigger] counts@[a] == counted(
                    dv,
                    ps1[a],
                    len as int,
                    i + 1,
                ) && counts@[a] >= 1 && min_len <= ps1[a].len() <= len by {
                    if a < ps0.len() {
                        assert(ps1[a] == ps0[a]);
                        assert(cs0[a] == counted(dv, ps0[a], len as int, i as int));
                        if ps0[a].len() == len {
                            assert(counted(dv, ps0[a], len as int, i + 1) == counted(
                                dv,
                                ps0[a],
                                len as int,
                                i as int,
                            ) + if ps0[a] == w {
                                1nat
                            } else {
                                0nat
                            });
                        }
                    } else {
                        assert(ps1[a] == w);
                        if counted(dv, w, len as int, i as int) >= 1 {
                            assert(ps0.contains(w));
                        }
                        assert(counted(dv, w, len as int, i + 1) == counted(dv, w, len as int, i as int)
                            + 1);
                    }
                }
                assert forall|p: Seq<Trit>|
                    min_len <= p.len() <= len && counted(dv, p, len as int, i + 1) >= 1 implies ps1.contains(
                    p,
                ) by {
                    if p == w {
                        if k < ps0.len() {
                            assert(ps1[k as int] == w);
                        } else {
                            assert(ps1[ps0.len() as int] == w);
                        }
                    } else {
                        if p.len() == len {
                            assert(counted(dv, p, len as int, i + 1) == counted(dv, p, len as int, i as int));
                        }
                        assert(ps0.contains(p));
                        let m = choose|m: int| 0 <= m < ps0.len() && ps0[m] == p;
                        assert(ps1[m] == p);
                    }
                }
                assert forall|a: int, b: int| 0 <= a < b < ps1.len() implies ps1[a] != ps1[b] by {
                    if b == ps0.len() && k >= ps0.len() {
                        assert(ps1[a] == ps0[a]);
                    }
                }
            }
            i = i + 1;
        }
        proof {
            let ps = trit_seqs(pats@);
            assert forall|p: Seq<Trit>| p.len() == len implies occurrences_before(
                dv,
                p,
                n - len + 1,
            ) == occurrences(dv, p) by {
                lemma_occurrences_before_tail(dv, p, n - len + 1);
            }
        }
        if len == top {
            proof {
                let ps = trit_seqs(pats@);
                assert forall|k: int| 0 <= k < pats@.len() implies #[trigger] counts@[k] == occurrences(
                    dv,
                    ps[k],
                ) by {
                    assert(counts@[k] == counted(dv, ps[k], len as int, n - len + 1));
                }
                assert forall|p: Seq<Trit>|
                    min_len <= p.len() <= max_len && occurrences(dv, p) >= 1 implies ps.contains(p) by {
                    if p.len() > n {
                        lemma_occurrences_fit(dv, p, dv.len() + 1int);
                        assert(false);
                    }
                    assert(p.len() <= len);
                    if p.len() == len {
                        lemma_occurrences_before_tail(dv, p, n - len + 1);
                        assert(counted(dv, p, len as int, n - len + 1) == occurrences(dv, p));
                    }
                    assert(counted(dv, p, len as int, n - len + 1) >= 1);
                }
            }
            return (pats, counts);
        }
        proof {
            let ps = trit_seqs(pats@);
            assert forall|k: int| 0 <= k < pats@.len() implies #[trigger] counts@[k] == counted(
                dv,
                ps[k],
                len + 1,
                0,
            ) by {
                assert(counts@[k] == counted(dv, ps[k], len as int, n - len + 1));
            }
            assert forall|p: Seq<Trit>|
                min_len <= p.len() < len + 1 && occurrences(dv, p) >= 1 implies ps.contains(p) by {
                assert(counted(dv, p, len as int, n - len + 1) >= 1);
            }
        }
        len = len + 1;
    }
}

/// Index of the first of the largest counts.
fn heaviest_index(counts: &Vec<usize>) -> (k: usize)
    requires
        counts@.len() > 0,
    ensures
        k < counts@.len(),
        forall|j: int| 0 <= j < counts@.len() ==> #[trigger] counts@[j] <= counts@[k as int],
        forall|j: int| 0 <= j < k ==> #[trigger] counts@[j] < counts@[k as int],
{
    let mut best: usize = 0;
    let mut i: usize = 1;
    while i < counts.len()
        invariant
            1 <= i <= counts@.len(),
            best < i,
            forall|j: int| 0 <= j < i ==> #[trigger] counts@[j] <= counts@[best as int],
            forall|j: int| 0 <= j < best ==> #[trigger] counts@[j] < counts@[best as int],
        decreases counts@.len() - i,
    {
        if counts[i] > counts[best] {
            best = i;
        }
        i = i + 1;
    }
    best
}

/// The patterns of `pats` whose count reaches `min_freq`, with their counts, in order.
fn frequent_patterns(pats: &Vec<Vec<Trit>>, counts: &Vec<usize>, min_freq: usize) -> (r: (
    Vec<Vec<Trit>>,
    Vec<usize>,
))
    requires
        pats@.len() == counts@.len(),
        distinct_patterns(trit_seqs(pats@)),
    ensures
        r.0@.len() == r.1@.len(),
        distinct_patterns(trit_seqs(r.0@)),
        forall|m: int|
            0 <= m < r.0@.len() ==> trit_seqs(pats@).contains(#[trigger] trit_seqs(r.0@)[m])
                && r.1@[m] >= min_freq,
        forall|m: int, k: int|
            0 <= m < r.0@.len() && 0 <= k < pats@.len() && trit_seqs(pats@)[k] == trit_seqs(
                r.0@,
            )[m] ==> counts@[k] == r.1@[m],
        forall|k: int|
            0 <= k < pats@.len() && counts@[k] >= min_freq ==> trit_seqs(r.0@).contains(
                #[trigger] trit_seqs(pats@)[k],
            ),
{
    let ghost ps = trit_seqs(pats@);
    let mut out_pats: Vec<Vec<Trit>> = Vec::new();
    let mut out_counts: Vec<usize> = Vec::new();
    let ghost mut origin: Seq<int> = seq![];
    let mut k: usize = 0;
    while k < pats.len()
        invariant
            ps == trit_seqs(pats@),
            pats@.len() == counts@.len(),
            distinct_patterns(ps),
            0 <= k <= pats@.len(),
            out_pats@.len() == out_counts@.len(),
            origin.len() == out_pats@.len(),
            distinct_patterns(trit_seqs(out_pats@)),
            forall|m: int|
                0 <= m < out_pats@.len() ==> 0 <= #[trigger] origin[m] < k && ps[origin[m]]
                    == trit_seqs(out_pats@)[m] && counts@[origin[m]] == out_counts@[m]
                    && out_counts@[m] >= min_freq,
            forall|j: int|
                0 <= j < k && counts@[j] >= min_freq ==> trit_seqs(out_pats@).contains(
                    #[trigger] ps[j],
                ),
        decreases pats@.len() - k,
    {
        if counts[k] >= min_freq {
            let ghost o0 = trit_seqs(out_pats@);
            let ghost g0 = origin;
            let copy = crate::trit::copy_trits(pats[k].as_slice());
            out_pats.push(copy);
            out_counts.push(counts[k]);
            proof {
                origin = origin.push(k as int);
                let o1 = trit_seqs(out_pats@);
                assert(o1 =~= o0.push(ps[k as int]));
                assert forall|a: int, b: int| 0 <= a < b < o1.len() implies o1[a] != o1[b] by {
                    if b == o0.len() {
                        assert(g0[a] < k);
                        assert(ps[g0[a]] == o0[a]);
                        assert(ps[g0[a]] != ps[k as int]);
                    }
                }
                assert forall|j: int| 0 <= j < k + 1 && counts@[j] >= min_freq implies o1.contains(
                    #[trigger] ps[j],
                ) by {
                    if j == k {
                        assert(o1[o0.len() as int] == ps[j]);
                    } else {
                        let m = choose|m: int| 0 <= m < o0.len() && o0[m] == ps[j];
                        assert(o1[m] == ps[j]);
                    }
                }
                assert forall|m: int| 0 <= m < out_pats@.len() implies 0 <= #[trigger] origin[m] < k
                    + 1 && ps[origin[m]] == o1[m] && counts@[origin[m]] == out_counts@[m]
                    && out_counts@[m] >= min_freq by {
                    if m < o0.len() {
                        assert(origin[m] == g0[m]);
                        assert(o1[m] == o0[m]);
                    }
                }
            }
        }
        k = k + 1;
    }
    proof {
        let os = trit_seqs(out_pats@);
        assert forall|m: int| 0 <= m < out_pats@.len() implies ps.contains(#[trigger] os[m])
            && out_counts@[m] >= min_freq by {
            assert(ps[origin[m]] == os[m]);
        }
        assert forall|m: int, j: int|
            0 <= m < out_pats@.len() && 0 <= j < pats@.len() && ps[j] == os[m] implies counts@[j]
            == out_counts@[m] by {
            assert(ps[origin[m]] == os[m]);
            if j != origin[m] {
                if j < origin[m] {
                    assert(ps[j] != ps[origin[m]]);
                } else {
                    assert(ps[origin[m]] != ps[j]);
                }
            }
        }
    }
    (out_pats, out_counts)
}

/// The longest pattern of `dict` that starts `s`, trying lengths from `len` down
/// to 2, with its code; `None` when there is none.
pub open spec fn best_match(dict: Seq<Seq<Trit>>, s: Seq<Trit>, len: int) -> Option<(int, int)>
    decreases len,
{
    if len < 2 {
        None
    } else if dict.contains(s.take(len)) {
        Some((first_index(dict, s.take(len)), len))
    } else {
        best_match(dict, s, len - 1)
    }
}

/// A match found by `best_match` has a length between 2 and the longest tried.
pub proof fn lemma_best_match_len(dict: Seq<Seq<Trit>>, s: Seq<Trit>, len: int)
    ensures
        best_match(dict, s, len) matches Some((code, l)) ==> 2 <= l <= len && dict.contains(
            s.take(l),
        ) && code == first_index(dict, s.take(l)),
    decreases len,
{
    if len >= 2 && !dict.contains(s.take(len)) {
        lemma_best_match_len(dict, s, len - 1);
    }
}

/// Greedy compression of `s` with `dict`: at each position the longest pattern
/// of at most `MAX_MATCH_LEN` trits found in the dictionary becomes a pattern
/// token; where none of length 2 or more matches, one literal trit is emitted.
pub open spec fn greedy_tokens(dict: Seq<Seq<Trit>>, s: Seq<Trit>) -> Seq<DictToken>
    decreases s.len(),
{
    if s.len() == 0 {
        seq![]
    } else {
        let max_pat = if s.len() < MAX_MATCH_LEN {
            s.len() as int
        } else {
            MAX_MATCH_LEN as int
        };
        match best_match(dict, s, max_pat) {
            Some((code, len)) => {
                proof {
                    lemma_best_match_len(dict, s, max_pat);
                }
                seq![DictToken::Pattern { code: code as usize, len: len as usize }]
                    + greedy_tokens(dict, s.skip(len))
            },
            None => seq![DictToken::Literal(s[0])] + greedy_tokens(dict, s.skip(1)),
        }
    }
}

/// The trits that `tokens` stand for under `dict`: a literal stands for its trit,
/// a pattern token for the pattern of its code (nothing when the code is unknown).
pub open spec fn expand_tokens(dict: Seq<Seq<Trit>>, tokens: Seq<DictToken>) -> Seq<Trit>
    decreases tokens.len(),
{
    if tokens.len() == 0 {
        seq![]
    } else {
        expand_tokens(dict, tokens.drop_last()) + match tokens.last() {
            DictToken::Literal(t) => seq![t],
            DictToken::Pattern { code, .. } => if code < dict.len() {
                dict[code as int]
            } else {
                seq![]
            },
        }
    }
}

/// Expanding two token streams one after the other is expanding their concatenation.
pub proof fn lemma_expand_append(dict: Seq<Seq<Trit>>, t1: Seq<DictToken>, t2: Seq<DictToken>)
    ensures
        expand_tokens(dict, t1 + t2) == expand_tokens(dict, t1) + expand_tokens(dict, t2),
    decreases t2.len(),
{
    if t2.len() == 0 {
        assert(t1 + t2 =~= t1);
        assert(expand_tokens(dict, t1) + Seq::<Trit>::empty() =~= expand_tokens(dict, t1));
    } else {
        assert((t1 + t2).drop_last() =~= t1 + t2.drop_last());
        lemma_expand_append(dict, t1, t2.drop_last());
        assert((t1 + t2).last() == t2.last());
    }
}

/// One token expands to its trit, for a literal, or to the pattern of its
/// code, for a pattern token, whatever length it records; a code that the
/// dictionary lacks expands to nothing.
pub proof fn lemma_expand_single(dict: Seq<Seq<Trit>>, tok: DictToken)
    ensures
        expand_tokens(dict, seq![tok]) == match tok {
            DictToken::Literal(t) => seq![t],
            DictToken::Pattern { code, len } => if code < dict.len() {
                dict[code as int]
            } else {
                Seq::<Trit>::empty()
            },
        },
{
    assert(seq![tok].drop_last() =~= Seq::<DictToken>::empty());
    assert(seq![tok].last() == tok);
    assert(expand_tokens(dict, Seq::<DictToken>::empty()) =~= Seq::<Trit>::empty());
    let e = expand_tokens(dict, seq![tok]);
    match tok {
        DictToken::Literal(t) => {
            assert(e =~= seq![t]);
        },
        DictToken::Pattern { code, len } => {
            if code < dict.len() {
                assert(e =~= dict[code as int]);
            } else {
                assert(e =~= Seq::<Trit>::empty());
            }
        },
    }
}

/// Dictionary compression is lossless: expanding the tokens that compression
/// gives for `s`, with the same dictionary, returns `s`, whatever the dictionary.
pub proof fn lemma_dictionary_roundtrip(dict: Seq<Seq<Trit>>, s: Seq<Trit>)
    requires
        dict.len() <= usize::MAX,
    ensures
        expand_tokens(dict, greedy_tokens(dict, s)) == s,
    decreases s.len(),
{
    if s.len() > 0 {
        let max_pat = if s.len() < MAX_MATCH_LEN {
            s.len() as int
        } else {
            MAX_MATCH_LEN as int
        };
        lemma_best_match_len(dict, s, max_pat);
        match best_match(dict, s, max_pat) {
            Some((code, len)) => {
                let tok = seq![DictToken::Pattern { code: code as usize, len: len as usize }];
                lemma_dictionary_roundtrip(dict, s.skip(len));
                lemma_expand_append(dict, tok, greedy_tokens(dict, s.skip(len)));
                lemma_first_index_present(dict, s.take(len));
                assert(tok.drop_last() =~= Seq::<DictToken>::empty());
                assert(expand_tokens(dict, tok.drop_last()) == Seq::<Trit>::empty());
                assert((code as usize) as int == code);
                assert(expand_tokens(dict, tok) =~= s.take(len));
                assert(s.take(len) + s.skip(len) =~= s);
            },
            None => {
                let tok = seq![DictToken::Literal(s[0])];
                lemma_dictionary_roundtrip(dict, s.skip(1));
                lemma_expand_append(dict, tok, greedy_tokens(dict, s.skip(1)));
                assert(tok.drop_last() =~= Seq::<DictToken>::empty());
                assert(expand_tokens(dict, tok.drop_last()) == Seq::<Trit>::empty());
                assert(expand_tokens(dict, tok) =~= seq![s[0]]);
                assert(seq![s[0]] + s.skip(1) =~= s);
            },
        }
    }
}

/// The number of input trits that a token stands for: one for a literal, its
/// length for a pattern token.
pub open spec fn token_len(t: DictToken) -> int {
    match t {
        DictToken::Literal(_) => 1,
        DictToken::Pattern { len, .. } => len as int,
    }
}

/// The number of input trits that `tokens` stand for.
pub open spec fn tokens_span(tokens: Seq<DictToken>) -> int
    decreases tokens.len(),
{
    if tokens.len() == 0 {
        0
    } else {
        token_len(tokens[0]) + tokens_span(tokens.skip(1))
    }
}

/// `tok`, found at position `p` of `s`, is the longest dictionary match there:
/// a pattern token names the first code whose pattern is the `len` trits at `p`,
/// of at least two trits, and no pattern of `dict` is a longer window of at most
/// sixteen trits at `p`; a literal holds the trit at `p`, and no window of two to
/// sixteen trits at `p` is a pattern of `dict`.
pub open spec fn is_longest_match(dict: Seq<Seq<Trit>>, s: Seq<Trit>, p: int, tok: DictToken) -> bool {
    &&& 0 <= p < s.len()
    &&& match tok {
        DictToken::Pattern { code, len } => {
            &&& 2 <= len
            &&& p + len <= s.len()
            &&& code < dict.len()
            &&& dict[code as int] == s.subrange(p, p + len)
            &&& forall|c: int| 0 <= c < code ==> #[trigger] dict[c] != dict[code as int]
            &&& forall|e: int|
                p + len < e <= s.len() && e <= p + 16 ==> !dict.contains(
                    #[trigger] s.subrange(p, e),
                )
        },
        DictToken::Literal(t) => {
            &&& t == s[p]
            &&& forall|e: int|
                p + 2 <= e <= s.len() && e <= p + 16 ==> !dict.contains(
                    #[trigger] s.subrange(p, e),
                )
        },
    }
}

/// No pattern of `dict` longer than the match that `best_match` finds, and of
/// at most `len` trits, starts `s`; where it finds none, no pattern of two to
/// `len` trits starts `s`.
proof fn lemma_best_match_longest(dict: Seq<Seq<Trit>>, s: Seq<Trit>, len: int)
    ensures
        match best_match(dict, s, len) {
            Some((code, l)) => forall|m: int| l < m <= len ==> !dict.contains(#[trigger] s.take(m)),
            None => forall|m: int| 2 <= m <= len ==> !dict.contains(#[trigger] s.take(m)),
        },
    decreases len,
{
    if len >= 2 && !dict.contains(s.take(len)) {
        lemma_best_match_longest(dict, s, len - 1);
    }
}

/// A longest match at `p` in the suffix of `s` after `d` trits is a longest
/// match at `p + d` in `s`.
proof fn lemma_longest_match_shift(dict: Seq<Seq<Trit>>, s: Seq<Trit>, d: int, p: int, tok: DictToken)
    requires
        0 <= d <= s.len(),
        is_longest_match(dict, s.skip(d), p, tok),
    ensures
        is_longest_match(dict, s, p + d, tok),
{
    let r = s.skip(d);
    match tok {
        DictToken::Pattern { code, len } => {
            assert(r.subrange(p, p + len) =~= s.subrange(p + d, p + d + len));
            assert forall|e: int|
                p + d + len < e <= s.len() && e <= p + d + 16 implies !dict.contains(
                #[trigger] s.subrange(p + d, e),
            ) by {
                assert(r.subrange(p, e - d) =~= s.subrange(p + d, e));
            }
        },
        DictToken::Literal(t) => {
            assert(r[p] == s[p + d]);
            assert forall|e: int|
                p + d + 2 <= e <= s.len() && e <= p + d + 16 implies !dict.contains(
                #[trigger] s.subrange(p + d, e),
            ) by {
                assert(r.subrange(p, e - d) =~= s.subrange(p + d, e));
            }
        },
    }
}

/// Compression matches greedily and as long as it can: the tokens stand for
/// all of `s`, and each token, at the position in `s` where the trits before it
/// end, is the longest match of at most sixteen trits that `dict` has there, or
/// a literal where no pattern of two or more trits matches.
pub proof fn lemma_compress_longest_match(dict: Seq<Seq<Trit>>, s: Seq<Trit>)
    requires
        dict.len() <= usize::MAX,
    ensures
        tokens_span(greedy_tokens(dict, s)) == s.len(),
        forall|k: int|
            0 <= k < greedy_tokens(dict, s).len() ==> is_longest_match(
                dict,
                s,
                tokens_span(greedy_tokens(dict, s).take(k)),
                #[trigger] greedy_tokens(dict, s)[k],
            ),
    decreases s.len(),
{
    let toks = greedy_tokens(dict, s);
    if s.len() == 0 {
        assert(toks.len() == 0);
    } else {
        let max_pat = if s.len() < 16 {
            s.len() as int
        } else {
            16int
        };
        lemma_best_match_len(dict, s, max_pat);
        lemma_best_match_longest(dict, s, max_pat);
        let (tok, d) = match best_match(dict, s, max_pat) {
            Some((code, len)) => (DictToken::Pattern { code: code as usize, len: len as usize }, len),
            None => (DictToken::Literal(s[0]), 1int),
        };
        let rest = s.skip(d);
        lemma_compress_longest_match(dict, rest);
        let toks1 = greedy_tokens(dict, rest);
        assert(toks == seq![tok] + toks1);
        assert(toks.skip(1) =~= toks1);
        assert(token_len(tok) == d);
        assert(is_longest_match(dict, s, 0, tok)) by {
            match best_match(dict, s, max_pat) {
                Some((code, len)) => {
                    lemma_first_index_present(dict, s.take(len));
                    assert(s.subrange(0, len) =~= s.take(len));
                    assert forall|e: int| 0 + len < e <= s.len() && e <= 0 + 16 implies !dict.contains(
                        #[trigger] s.subrange(0, e),
                    ) by {
                        assert(s.subrange(0, e) =~= s.take(e));
                    }
                },
                None => {
                    assert forall|e: int| 0 + 2 <= e <= s.len() && e <= 0 + 16 implies !dict.contains(
                        #[trigger] s.subrange(0, e),
                    ) by {
                        assert(s.subrange(0, e) =~= s.take(e));
                    }
                },
            }
        }
        assert forall|k: int| 0 <= k < toks.len() implies is_longest_match(
            dict,
            s,
            tokens_span(toks.take(k)),
            #[trigger] toks[k],
        ) by {
            if k == 0 {
                assert(toks.take(0).len() == 0);
            } else {
                let pre = toks.take(k);
                assert(pre[0] == tok);
                assert(pre.skip(1) =~= toks1.take(k - 1));
                assert(toks[k] == toks1[k - 1]);
                lemma_longest_match_shift(dict, s, d, tokens_span(toks1.take(k - 1)), toks1[k - 1]);
            }
        }
    }
}

} // verus!
