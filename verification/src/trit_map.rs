//! A map keyed by trits: one optional slot per symbol of the alphabet.
use vstd::prelude::*;

use crate::trit::Trit;

verus! {

/// A map from trits to values, such as symbol frequencies or code words.
#[derive(Debug)]
pub struct TritMap<V> {
    neg: Option<V>,
    zero: Option<V>,
    pos: Option<V>,
}

impl<V> TritMap<V> {
    /// The slot that holds the value of `t`.
    pub closed spec fn slot(&self, t: Trit) -> Option<V> {
        match t {
            Trit::Neg => self.neg,
            Trit::Zero => self.zero,
            Trit::Pos => self.pos,
        }
    }

    /// An empty map.
    pub fn new() -> (m: Self)
        ensures
            m@ == Map::<Trit, V>::empty(),
    {
        let m = TritMap { neg: None, zero: None, pos: None };
        assert(m@ =~= Map::<Trit, V>::empty());
        m
    }

    /// Sets the value of `t` to `v`, replacing any earlier value.
    pub fn insert(&mut self, t: Trit, v: V)
        ensures
            final(self)@ == old(self)@.insert(t, v),
    {
        match t {
            Trit::Neg => self.neg = Some(v),
            Trit::Zero => self.zero = Some(v),
            Trit::Pos => self.pos = Some(v),
        }
        assert(self@ =~= old(self)@.insert(t, v));
    }

    /// The value of `t`, if it has one.
    pub fn get(&self, t: Trit) -> (r: Option<&V>)
        ensures
            r matches Some(v) ==> self@.contains_key(t) && *v == self@[t],
            r is None <==> !self@.contains_key(t),
    {
        match t {
            Trit::Neg => self.neg.as_ref(),
            Trit::Zero => self.zero.as_ref(),
            Trit::Pos => self.pos.as_ref(),
        }
    }

    /// Whether no trit has a value.
    pub fn is_empty(&self) -> (r: bool)
        ensures
            r <==> self@ == Map::<Trit, V>::empty(),
    {
        let r = self.neg.is_none() && self.zero.is_none() && self.pos.is_none();
        if !r {
            if self.neg.is_some() {
                assert(self@.contains_key(Trit::Neg));
            } else if self.zero.is_some() {
                assert(self@.contains_key(Trit::Zero));
            } else {
                assert(self@.contains_key(Trit::Pos));
            }
        } else {
            assert(self@ =~= Map::<Trit, V>::empty());
        }
        r
    }
}

impl<V> View for TritMap<V> {
    type V = Map<Trit, V>;

    open spec fn view(&self) -> Map<Trit, V> {
        Map::new(|t: Trit| self.slot(t) is Some, |t: Trit| self.slot(t)->0)
    }
}

/// The number of times `t` occurs in `s`.
pub open spec fn count_of(s: Seq<Trit>, t: Trit) -> nat
    decreases s.len(),
{
    if s.len() == 0 {
        0
    } else {
        count_of(s.drop_last(), t) + if s.last() == t {
            1nat
        } else {
            0nat
        }
    }
}

/// Counting in two streams one after the other adds their counts; a single
/// trit counts once for itself and never for another trit; and the counts of
/// the three trits add up to the length of the stream.
pub proof fn lemma_count_of_append(a: Seq<Trit>, b: Seq<Trit>, t: Trit, u: Trit)
    ensures
        count_of(a + b, t) == count_of(a, t) + count_of(b, t),
        count_of(seq![u], t) == if u == t {
            1nat
        } else {
            0nat
        },
        count_of(a, Trit::Neg) + count_of(a, Trit::Zero) + count_of(a, Trit::Pos) == a.len(),
    decreases a.len() + b.len(),
{
    assert(seq![u].drop_last() =~= Seq::<Trit>::empty());
    assert(seq![u].last() == u);
    assert(count_of(Seq::<Trit>::empty(), t) == 0);
    assert(count_of(seq![u], t) == count_of(seq![u].drop_last(), t) + if u == t {
        1nat
    } else {
        0nat
    });
    if b.len() == 0 {
        assert(a + b =~= a);
        if a.len() > 0 {
            lemma_count_of_append(a.drop_last(), b, t, u);
        }
    } else {
        assert((a + b).drop_last() =~= a + b.drop_last());
        assert((a + b).last() == b.last());
        lemma_count_of_append(a, b.drop_last(), t, u);
    }
}

/// A trit at some position of `s` occurs in `s`.
pub proof fn lemma_count_of_member(s: Seq<Trit>, k: int)
    requires
        0 <= k < s.len(),
    ensures
        count_of(s, s[k]) > 0,
    decreases s.len(),
{
    if k < s.len() - 1 {
        assert(s.drop_last()[k] == s[k]);
        lemma_count_of_member(s.drop_last(), k);
    }
}

/// A stream made of one trit only counts that trit at every position.
pub proof fn lemma_count_of_all(s: Seq<Trit>, t: Trit)
    requires
        forall|k: int| 0 <= k < s.len() ==> s[k] == t,
    ensures
        count_of(s, t) == s.len(),
    decreases s.len(),
{
    if s.len() > 0 {
        lemma_count_of_all(s.drop_last(), t);
    }
}

proof fn lemma_count_of_bound(s: Seq<Trit>, t: Trit)
    ensures
        count_of(s, t) <= s.len(),
    decreases s.len(),
{
    if s.len() > 0 {
        lemma_count_of_bound(s.drop_last(), t);
    }
}

/// How often each trit occurs in `data`; trits that do not occur have no entry.
pub fn trit_frequencies(data: &[Trit]) -> (freqs: TritMap<usize>)
    ensures
        forall|t: Trit| #[trigger] freqs@.contains_key(t) <==> count_of(data@, t) > 0,
        forall|t: Trit| #[trigger] freqs@.contains_key(t) ==> freqs@[t] == count_of(data@, t),
{
    let mut freqs: TritMap<usize> = TritMap::new();
    let mut i: usize = 0;
    assert(data@.take(0) =~= Seq::<Trit>::empty());
    while i < data.len()
        invariant
            0 <= i <= data@.len(),
            forall|t: Trit| #[trigger] freqs@.contains_key(t) <==> count_of(data@.take(i as int), t) > 0,
            forall|t: Trit|
                #[trigger] freqs@.contains_key(t) ==> freqs@[t] == count_of(data@.take(i as int), t),
        decreases data@.len() - i,
    {
        let t = data[i];
        proof {
            assert(data@.take(i + 1).drop_last() =~= data@.take(i as int));
            lemma_count_of_bound(data@.take(i as int), t);
        }
        let c: usize = match freqs.get(t) {
            Some(c) => *c,
            None => 0,
        };
        freqs.insert(t, c + 1);
        i = i + 1;
    }
    assert(data@.take(data@.len() as int) =~= data@);
    freqs
}

} // verus!
