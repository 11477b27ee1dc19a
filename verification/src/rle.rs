//! Run-length encoding of trit streams.
use vstd::prelude::*;

use crate::trit::Trit;

verus! {

/// Run-length encoded entry: a trit and its repeat count.
#[derive(Debug, Clone, PartialEq, Eq, Structural)]
pub struct RleEntry {
    pub trit: Trit,
    pub count: usize,
}

/// `n` copies of `t`.
pub open spec fn repeat_trit(t: Trit, n: nat) -> Seq<Trit> {
    Seq::new(n, |i: int| t)
}

/// The trits that `entries` stand for: each entry's trit repeated its count times.
pub open spec fn rle_expand(entries: Seq<RleEntry>) -> Seq<Trit>
    decreases entries.len(),
{
    if entries.len() == 0 {
        seq![]
    } else {
        rle_expand(entries.drop_last()) + repeat_trit(
            entries.last().trit,
            entries.last().count as nat,
        )
    }
}

/// The sum of the counts of `entries`.
pub open spec fn count_sum(entries: Seq<RleEntry>) -> nat
    decreases entries.len(),
{
    if entries.len() == 0 {
        0
    } else {
        count_sum(entries.drop_last()) + entries.last().count as nat
    }
}

/// The maximal runs of equal trits in `s`, in order, each as its trit and length.
pub open spec fn rle_runs(s: Seq<Trit>) -> Seq<RleEntry>
    decreases s.len(),
{
    if s.len() == 0 {
        seq![]
    } else {
        let r = rle_runs(s.drop_last());
        if r.len() > 0 && r.last().trit == s.last() {
            r.update(
                r.len() - 1,
                RleEntry { trit: s.last(), count: (r.last().count + 1) as usize },
            )
        } else {
            r.push(RleEntry { trit: s.last(), count: 1 })
        }
    }
}

/// Entries in the form that compression gives: no entry is empty and no two
/// neighbouring entries repeat the same trit.
pub open spec fn is_canonical_rle(entries: Seq<RleEntry>) -> bool {
    &&& forall|i: int| 0 <= i < entries.len() ==> (#[trigger] entries[i]).count > 0
    &&& forall|i: int, j: int|
        0 <= i && j == i + 1 && j < entries.len() ==> (#[trigger] entries[i]).trit != (
        #[trigger] entries[j]).trit
}

/// Compress a ternary stream using run-length encoding.
pub fn rle_compress(data: &[Trit]) -> (entries: Vec<RleEntry>)
    ensures
        entries@ == rle_runs(data@),
{
    if data.len() == 0 {
        assert(data@ =~= Seq::<Trit>::empty());
        return Vec::new();
    }
    let mut result: Vec<RleEntry> = Vec::new();
    let mut current = data[0];
    let mut count: usize = 1;
    let mut i: usize = 1;
    proof {
        assert(data@.take(1).drop_last() =~= Seq::<Trit>::empty());
        assert(data@.take(1).last() == data@[0]);
        assert(rle_runs(Seq::<Trit>::empty()) =~= Seq::<RleEntry>::empty());
    }
    while i < data.len()
        invariant
            1 <= i <= data@.len(),
            1 <= count <= i,
            rle_runs(data@.take(i as int)) == result@.push(RleEntry { trit: current, count }),
        decreases data@.len() - i,
    {
        let t = data[i];
        proof {
            assert(data@.take(i + 1).drop_last() =~= data@.take(i as int));
        }
        if t == current {
            count = count + 1;
            assert(rle_runs(data@.take(i + 1)) =~= result@.push(RleEntry { trit: current, count }));
        } else {
            result.push(RleEntry { trit: current, count: count });
            current = t;
            count = 1;
        }
        i = i + 1;
    }
    assert(data@.take(data@.len() as int) =~= data@);
    result.push(RleEntry { trit: current, count: count });
    result
}

/// Decompress RLE back to a ternary stream.
pub fn rle_decompress(entries: &[RleEntry]) -> (data: Vec<Trit>)
    ensures
        data@ == rle_expand(entries@),
        data@.len() == count_sum(entries@),
        forall|k: int|
            0 <= k < entries@.len() ==> data@.subrange(
                count_sum(entries@.take(k)) as int,
                count_sum(entries@.take(k + 1)) as int,
            ) == Seq::new((#[trigger] entries@[k]).count as nat, |i: int| entries@[k].trit),
{
    let mut result: Vec<Trit> = Vec::new();
    let mut k: usize = 0;
    assert(entries@.take(0) =~= Seq::<RleEntry>::empty());
    while k < entries.len()
        invariant
            0 <= k <= entries@.len(),
            result@ == rle_expand(entries@.take(k as int)),
        decreases entries@.len() - k,
    {
        let e = &entries[k];
        let ghost before = result@;
        let mut j: usize = 0;
        while j < e.count
            invariant
                0 <= j <= e.count,
                result@ == before + repeat_trit(e.trit, j as nat),
            decreases e.count - j,
        {
            result.push(e.trit);
            j = j + 1;
            assert(result@ =~= before + repeat_trit(e.trit, j as nat));
        }
        assert(entries@.take(k + 1).drop_last() =~= entries@.take(k as int));
        k = k + 1;
    }
    assert(entries@.take(entries@.len() as int) =~= entries@);
    proof {
        lemma_rle_expand_blocks(entries@);
    }
    result
}

/// The runs of a stream are canonical, every run is at most as long as the
/// stream, the last run holds the stream's last trit, and expanding the runs
/// gives the stream back.
pub proof fn lemma_rle_runs_expand(s: Seq<Trit>)
    requires
        s.len() <= usize::MAX,
    ensures
        is_canonical_rle(rle_runs(s)),
        rle_expand(rle_runs(s)) == s,
        forall|i: int| 0 <= i < rle_runs(s).len() ==> (#[trigger] rle_runs(s)[i]).count <= s.len(),
        s.len() > 0 ==> rle_runs(s).len() > 0 && rle_runs(s).last().trit == s.last(),
    decreases s.len(),
{
    if s.len() > 0 {
        let s0 = s.drop_last();
        let t = s.last();
        lemma_rle_runs_expand(s0);
        let r = rle_runs(s0);
        let r2 = rle_runs(s);
        if r.len() > 0 && r.last().trit == t {
            let last = r.last();
            assert(r2.drop_last() =~= r.drop_last());
            assert(rle_expand(r) == rle_expand(r.drop_last()) + repeat_trit(t, last.count as nat));
            assert(repeat_trit(t, last.count as nat).push(t) =~= repeat_trit(
                t,
                (last.count + 1) as nat,
            ));
            assert(rle_expand(r2) =~= rle_expand(r).push(t));
            assert forall|i: int, j: int| 0 <= i && j == i + 1 && j < r2.len() implies (
            #[trigger] r2[i]).trit != (#[trigger] r2[j]).trit by {
                assert(r2[i] == r[i]);
                if j < r.len() - 1 {
                    assert(r2[j] == r[j]);
                }
            }
        } else {
            assert(r2.drop_last() =~= r);
            assert(repeat_trit(t, 1) =~= seq![t]);
            assert(rle_expand(r2) =~= rle_expand(r).push(t));
        }
        assert(s0.push(t) =~= s);
    }
}

/// Runs of `t` appended to a stream whose runs do not end in `t` form one new run.
proof fn lemma_rle_runs_append_run(s: Seq<Trit>, t: Trit, c: nat)
    requires
        1 <= c <= usize::MAX,
        rle_runs(s).len() > 0 ==> rle_runs(s).last().trit != t,
    ensures
        rle_runs(s + repeat_trit(t, c)) == rle_runs(s).push(RleEntry { trit: t, count: c as usize }),
    decreases c,
{
    let x = s + repeat_trit(t, c);
    if c == 1 {
        assert(x.drop_last() =~= s);
    } else {
        lemma_rle_runs_append_run(s, t, (c - 1) as nat);
        assert(x.drop_last() =~= s + repeat_trit(t, (c - 1) as nat));
        let r = rle_runs(x.drop_last());
        assert(r.update(r.len() - 1, RleEntry { trit: t, count: c as usize }) =~= rle_runs(s).push(
            RleEntry { trit: t, count: c as usize },
        ));
    }
}

/// Compressing the expansion of canonical entries gives back the entries.
pub proof fn lemma_rle_expand_runs(entries: Seq<RleEntry>)
    requires
        is_canonical_rle(entries),
    ensures
        rle_runs(rle_expand(entries)) == entries,
    decreases entries.len(),
{
    if entries.len() > 0 {
        let e0 = entries.drop_last();
        let last = entries.last();
        assert(is_canonical_rle(e0)) by {
            assert forall|i: int, j: int| 0 <= i && j == i + 1 && j < e0.len() implies (
            #[trigger] e0[i]).trit != (#[trigger] e0[j]).trit by {
                assert(entries[i] == e0[i]);
                assert(entries[j] == e0[j]);
            }
            assert forall|i: int| 0 <= i < e0.len() implies (#[trigger] e0[i]).count > 0 by {
                assert(entries[i] == e0[i]);
            }
        }
        lemma_rle_expand_runs(e0);
        if e0.len() > 0 {
            assert(entries[e0.len() - 1] == e0.last());
        }
        assert(entries[entries.len() - 1].count > 0);
        lemma_rle_runs_append_run(rle_expand(e0), last.trit, last.count as nat);
        assert(e0.push(last) =~= entries);
    }
}

/// Run-length decompression undoes compression, and compression undoes the
/// decompression of canonical entries: the two are inverse bijections between
/// trit streams and canonical run lists.
pub proof fn lemma_rle_roundtrip(data: Seq<Trit>, entries: Seq<RleEntry>)
    requires
        data.len() <= usize::MAX,
    ensures
        rle_expand(rle_runs(data)) == data,
        is_canonical_rle(rle_runs(data)),
        is_canonical_rle(entries) ==> rle_runs(rle_expand(entries)) == entries,
{
    lemma_rle_runs_expand(data);
    if is_canonical_rle(entries) {
        lemma_rle_expand_runs(entries);
    }
}

/// Decompressing two lists of entries one after the other gives the
/// decompression of their concatenation, whatever the entries.
pub proof fn lemma_rle_expand_append(a: Seq<RleEntry>, b: Seq<RleEntry>)
    ensures
        rle_expand(a + b) == rle_expand(a) + rle_expand(b),
    decreases b.len(),
{
    if b.len() == 0 {
        assert(a + b =~= a);
        assert(rle_expand(a) + rle_expand(b) =~= rle_expand(a));
    } else {
        assert((a + b).drop_last() =~= a + b.drop_last());
        assert((a + b).last() == b.last());
        lemma_rle_expand_append(a, b.drop_last());
        assert(rle_expand(a + b) =~= rle_expand(a) + rle_expand(b));
    }
}

/// One entry decompresses to its trit repeated its count times.
pub proof fn lemma_rle_expand_single(e: RleEntry)
    ensures
        rle_expand(seq![e]) == Seq::new(e.count as nat, |i: int| e.trit),
{
    assert(seq![e].drop_last() =~= Seq::<RleEntry>::empty());
    assert(seq![e].last() == e);
    assert(rle_expand(Seq::<RleEntry>::empty()) =~= Seq::<Trit>::empty());
    assert(rle_expand(seq![e]) == rle_expand(seq![e].drop_last()) + repeat_trit(e.trit, e.count as nat));
    assert(rle_expand(seq![e]) =~= Seq::new(e.count as nat, |i: int| e.trit));
}

/// Decompression gives as many trits as the counts add up to, and the trits
/// of each entry stand, in order, as its trit repeated its count times: the
/// `k`-th block starts after the counts of the entries before it.
pub proof fn lemma_rle_expand_blocks(entries: Seq<RleEntry>)
    ensures
        rle_expand(entries).len() == count_sum(entries),
        forall|k: int|
            0 <= k < entries.len() ==> rle_expand(entries).subrange(
                count_sum(entries.take(k)) as int,
                count_sum(entries.take(k + 1)) as int,
            ) == Seq::new((#[trigger] entries[k]).count as nat, |i: int| entries[k].trit),
    decreases entries.len(),
{
    if entries.len() > 0 {
        let e0 = entries.drop_last();
        let last = entries.last();
        lemma_rle_expand_blocks(e0);
        let x0 = rle_expand(e0);
        let x = rle_expand(entries);
        assert forall|k: int| 0 <= k < entries.len() implies x.subrange(
            count_sum(entries.take(k)) as int,
            count_sum(entries.take(k + 1)) as int,
        ) == Seq::new((#[trigger] entries[k]).count as nat, |i: int| entries[k].trit) by {
            assert(entries.take(k + 1).drop_last() =~= entries.take(k));
            assert(count_sum(entries.take(k + 1)) == count_sum(entries.take(k)) + entries[k].count);
            if k == entries.len() - 1 {
                assert(entries.take(k) =~= e0);
                assert(x.subrange(
                    count_sum(entries.take(k)) as int,
                    count_sum(entries.take(k + 1)) as int,
                ) =~= Seq::new(entries[k].count as nat, |i: int| entries[k].trit));
            } else {
                assert(entries.take(k) =~= e0.take(k));
                assert(entries.take(k + 1) =~= e0.take(k + 1));
                assert(e0[k] == entries[k]);
                lemma_count_sum_prefix(e0, k + 1);
                assert(x.subrange(
                    count_sum(entries.take(k)) as int,
                    count_sum(entries.take(k + 1)) as int,
                ) =~= x0.subrange(
                    count_sum(e0.take(k)) as int,
                    count_sum(e0.take(k + 1)) as int,
                ));
            }
        }
    }
}

/// The counts of a prefix add up to no more than all the counts.
proof fn lemma_count_sum_prefix(entries: Seq<RleEntry>, k: int)
    requires
        0 <= k <= entries.len(),
    ensures
        count_sum(entries.take(k)) <= count_sum(entries),
    decreases entries.len(),
{
    if k < entries.len() {
        assert(entries.drop_last().take(k) =~= entries.take(k));
        lemma_count_sum_prefix(entries.drop_last(), k);
    } else {
        assert(entries.take(k) =~= entries);
    }
}

} // verus!
