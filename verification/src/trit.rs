use vstd::prelude::*;

verus! {

/// A balanced-ternary digit: Negative (-1), Zero (0) or Positive (+1).
#[derive(Debug, Clone, Copy, PartialEq, Eq, Hash, Structural)]
pub enum Trit {
    Neg,
    Zero,
    Pos,
}

/// The integer value of a trit.
pub open spec fn trit_value(t: Trit) -> int {
    match t {
        Trit::Neg => -1,
        Trit::Zero => 0,
        Trit::Pos => 1,
    }
}

impl Trit {
    /// The trit as a signed byte: -1, 0 or 1.
    pub fn to_i8(self) -> (v: i8)
        ensures
            v == trit_value(self),
    {
        match self {
            Trit::Neg => -1,
            Trit::Zero => 0,
            Trit::Pos => 1,
        }
    }

    /// The trit whose value is `v`, if `v` is -1, 0 or 1.
    pub fn from_i8(v: i8) -> (r: Option<Self>)
        ensures
            r matches Some(t) ==> trit_value(t) == v,
            r is None <==> !(-1 <= v <= 1),
    {
        match v {
            -1 => Some(Trit::Neg),
            0 => Some(Trit::Zero),
            1 => Some(Trit::Pos),
            _ => None,
        }
    }
}

/// The values of the trits: Neg is -1, Zero is 0 and Pos is +1.
pub proof fn lemma_trit_values()
    ensures
        trit_value(Trit::Neg) == -1,
        trit_value(Trit::Zero) == 0,
        trit_value(Trit::Pos) == 1,
{
}

/// Converting a trit to its value and back gives the trit again.
pub proof fn lemma_trit_value_roundtrip(t: Trit)
    ensures
        -1 <= trit_value(t) <= 1,
        forall|u: Trit| trit_value(u) == trit_value(t) ==> u == t,
{
}

/// The contents of each vector of a sequence of trit vectors.
pub open spec fn trit_seqs(v: Seq<Vec<Trit>>) -> Seq<Seq<Trit>> {
    v.map_values(|x: Vec<Trit>| x@)
}

/// Whether two trit slices hold the same trits.
pub(crate) fn same_trits(a: &[Trit], b: &[Trit]) -> (r: bool)
    ensures
        r == (a@ == b@),
{
    if a.len() != b.len() {
        return false;
    }
    let mut i: usize = 0;
    while i < a.len()
        invariant
            a@.len() == b@.len(),
            0 <= i <= a@.len(),
            forall|j: int| 0 <= j < i ==> a@[j] == b@[j],
        decreases a@.len() - i,
    {
        if a[i] != b[i] {
            return false;
        }
        i = i + 1;
    }
    assert(a@ =~= b@);
    true
}

/// A copy of a trit slice.
pub(crate) fn copy_trits(a: &[Trit]) -> (r: Vec<Trit>)
    ensures
        r@ == a@,
{
    let mut r: Vec<Trit> = Vec::new();
    let mut i: usize = 0;
    while i < a.len()
        invariant
            0 <= i <= a@.len(),
            r@ == a@.take(i as int),
        decreases a@.len() - i,
    {
        r.push(a[i]);
        i = i + 1;
        assert(r@ =~= a@.take(i as int));
    }
    assert(a@.take(a@.len() as int) =~= a@);
    r
}

/// Appends the trits of `b` to `a`.
pub(crate) fn append_trits(a: &mut Vec<Trit>, b: &[Trit])
    ensures
        final(a)@ == old(a)@ + b@,
{
    let mut i: usize = 0;
    while i < b.len()
        invariant
            0 <= i <= b@.len(),
            a@ == old(a)@ + b@.take(i as int),
        decreases b@.len() - i,
    {
        a.push(b[i]);
        i = i + 1;
        assert(a@ =~= old(a)@ + b@.take(i as int));
    }
    assert(b@.take(b@.len() as int) =~= b@);
}

/// The index of the first occurrence of `x` in `s`, or `s.len()` when absent.
pub open spec fn first_index(s: Seq<Seq<Trit>>, x: Seq<Trit>) -> int
    decreases s.len(),
{
    if s.len() == 0 {
        0
    } else if s[0] == x {
        0
    } else {
        1 + first_index(s.drop_first(), x)
    }
}

/// Index of the first entry of `dict` equal to `w`, or `dict.len()` when there is none.
pub(crate) fn find_entry(dict: &Vec<Vec<Trit>>, w: &[Trit]) -> (r: usize)
    ensures
        r == first_index(trit_seqs(dict@), w@),
        r <= dict@.len(),
        r < dict@.len() <==> trit_seqs(dict@).contains(w@),
        r < dict@.len() ==> trit_seqs(dict@)[r as int] == w@,
{
    let ghost d = trit_seqs(dict@);
    let mut i: usize = 0;
    while i < dict.len()
        invariant
            d == trit_seqs(dict@),
            0 <= i <= dict@.len(),
            forall|j: int| 0 <= j < i ==> d[j] != w@,
        decreases dict@.len() - i,
    {
        if same_trits(dict[i].as_slice(), w) {
            proof {
                lemma_first_index_found(d, w@, i as int);
            }
            return i;
        }
        i = i + 1;
    }
    proof {
        lemma_first_index_absent(d, w@);
    }
    i
}

pub proof fn lemma_first_index_found(s: Seq<Seq<Trit>>, x: Seq<Trit>, i: int)
    requires
        0 <= i < s.len(),
        s[i] == x,
        forall|j: int| 0 <= j < i ==> s[j] != x,
    ensures
        first_index(s, x) == i,
        s.contains(x),
    decreases i,
{
    if i > 0 {
        lemma_first_index_found(s.drop_first(), x, i - 1);
    }
}

pub proof fn lemma_first_index_absent(s: Seq<Seq<Trit>>, x: Seq<Trit>)
    requires
        forall|j: int| 0 <= j < s.len() ==> s[j] != x,
    ensures
        first_index(s, x) == s.len(),
        !s.contains(x),
    decreases s.len(),
{
    if s.len() > 0 {
        lemma_first_index_absent(s.drop_first(), x);
    }
}

/// Facts about `first_index` for an entry that is present.
pub proof fn lemma_first_index_present(s: Seq<Seq<Trit>>, x: Seq<Trit>)
    requires
        s.contains(x),
    ensures
        0 <= first_index(s, x) < s.len(),
        s[first_index(s, x)] == x,
        forall|j: int| 0 <= j < first_index(s, x) ==> #[trigger] s[j] != x,
    decreases s.len(),
{
    if s[0] != x {
        let j = choose|j: int| 0 <= j < s.len() && s[j] == x;
        assert(s.drop_first()[j - 1] == x);
        lemma_first_index_present(s.drop_first(), x);
        assert forall|j: int| 0 <= j < first_index(s, x) implies #[trigger] s[j] != x by {
            if j > 0 {
                assert(s[j] == s.drop_first()[j - 1]);
            }
        }
    }
}

} // verus!
