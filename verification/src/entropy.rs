//! Packing of trits into bytes: four trits per byte, two bits each.
use vstd::prelude::*;

use crate::trit::Trit;

verus! {

/// The two-bit value that stands for a trit: Neg 0, Zero 1, Pos 2.
pub open spec fn trit_bits(t: Trit) -> u8 {
    match t {
        Trit::Neg => 0,
        Trit::Zero => 1,
        Trit::Pos => 2,
    }
}

/// The trit that a two-bit value stands for; the unused value 3 reads as Zero.
pub open spec fn bits_trit(v: u8) -> Trit {
    if v == 0 {
        Trit::Neg
    } else if v == 1 {
        Trit::Zero
    } else if v == 2 {
        Trit::Pos
    } else {
        Trit::Zero
    }
}

/// The two-bit value of the `k`-th trit of `c`, or 0 past its end.
pub open spec fn digit(c: Seq<Trit>, k: int) -> int {
    if 0 <= k < c.len() {
        trit_bits(c[k]) as int
    } else {
        0
    }
}

/// The byte holding up to four trits, the first in the highest two bits.
pub open spec fn pack_byte(c: Seq<Trit>) -> int {
    64 * digit(c, 0) + 16 * digit(c, 1) + 4 * digit(c, 2) + digit(c, 3)
}

/// The `j`-th group of four trits of `data` (the last group may be shorter).
pub open spec fn chunk(data: Seq<Trit>, j: int) -> Seq<Trit> {
    data.subrange(4 * j, if 4 * j + 4 <= data.len() { 4 * j + 4 } else { data.len() as int })
}

/// The bytes that pack `data`: one per group of four trits.
pub open spec fn packed(data: Seq<Trit>) -> Seq<u8> {
    Seq::new(((data.len() + 3) / 4) as nat, |j: int| pack_byte(chunk(data, j)) as u8)
}

/// The four trits that each byte of `bytes` packs, one after the other.
pub open spec fn unpacked(bytes: Seq<u8>) -> Seq<Trit> {
    Seq::new(
        4 * bytes.len(),
        |k: int| bits_trit((bytes[k / 4] >> ((6 - 2 * (k % 4)) as u8)) & 3u8),
    )
}

/// The `k`-th two-bit field of byte `b`, counted from the highest bits
/// (`k` from 0 to 3).
pub open spec fn two_bit_field(b: u8, k: int) -> u8 {
    (b >> ((6 - 2 * k) as u8)) & 3u8
}

proof fn lemma_or_digit(b: u8, v: u8, s: u32)
    requires
        v < 4,
        (s == 6 && b == 0) || (s == 4 && b % 64 == 0) || (s == 2 && b % 16 == 0) || (s == 0 && b
            % 4 == 0),
    ensures
        (b | (v << s)) as int == b as int + v as int * (if s == 6 {
            64int
        } else if s == 4 {
            16int
        } else if s == 2 {
            4int
        } else {
            1int
        }),
{
    if s == 6 {
        assert(b == 0 && v < 4 ==> (b | (v << 6u32)) == v * 64) by (bit_vector);
    } else if s == 4 {
        assert(b % 64 == 0 && v < 4 ==> (b | (v << 4u32)) == b + v * 16) by (bit_vector);
    } else if s == 2 {
        assert(b % 16 == 0 && v < 4 ==> (b | (v << 2u32)) == b + v * 4) by (bit_vector);
    } else {
        assert(b % 4 == 0 && v < 4 ==> (b | (v << 0u32)) == b + v) by (bit_vector);
    }
}

/// Encode ternary data using arithmetic-like entropy coding (simplified).
/// Returns bytes where each byte packs 4 trits (2 bits each, values 0-2 mapped from Neg/Zero/Pos).
pub fn entropy_encode(data: &[Trit]) -> (bytes: Vec<u8>)
    ensures
        bytes@ == packed(data@),
        bytes@.len() == (data@.len() + 3) / 4,
        forall|j: int, k: int|
            0 <= j < bytes@.len() && 0 <= k < 4 ==> #[trigger] two_bit_field(bytes@[j], k) == if 4
                * j + k < data@.len() {
                match data@[4 * j + k] {
                    Trit::Neg => 0u8,
                    Trit::Zero => 1u8,
                    Trit::Pos => 2u8,
                }
            } else {
                0u8
            },
{
    let mut result: Vec<u8> = Vec::new();
    let mut byte: u8 = 0;
    let mut shift: u32 = 6;
    let mut i: usize = 0;
    while i < data.len()
        invariant
            0 <= i <= data@.len(),
            result@.len() == i / 4,
            forall|j: int| 0 <= j < i / 4 ==> #[trigger] result@[j] == pack_byte(chunk(data@, j)),
            shift == 6 - 2 * (i % 4),
            byte as int == pack_byte(data@.subrange(4 * (i / 4), i as int)),
        decreases data@.len() - i,
    {
        let t = data[i];
        let val: u8 = match t {
            Trit::Neg => 0,
            Trit::Zero => 1,
            Trit::Pos => 2,
        };
        let ghost part = data@.subrange(4 * (i / 4), i as int);
        let ghost next = data@.subrange(4 * (i / 4), i + 1);
        proof {
            assert(next =~= part.push(t));
            assert(val == trit_bits(t));
            lemma_or_digit(byte, val, shift);
        }
        byte = byte | (val << shift);
        if shift == 0 {
            assert(next =~= chunk(data@, (i / 4) as int));
            result.push(byte);
            byte = 0;
            shift = 6;
            assert(data@.subrange(4 * ((i + 1) / 4), i + 1) =~= Seq::<Trit>::empty());
        } else {
            shift = shift - 2;
        }
        i = i + 1;
    }
    if shift < 6 {
        assert(data@.subrange(4 * (i / 4), i as int) =~= chunk(data@, (i / 4) as int));
        result.push(byte);
    }
    assert(result@ =~= packed(data@));
    proof {
        lemma_packed_fields(data@);
    }
    result
}

/// Decode entropy-encoded bytes back to ternary stream.
pub fn entropy_decode(bytes: &[u8], original_len: usize) -> (data: Vec<Trit>)
    ensures
        data@ == unpacked(bytes@).take(
            if original_len <= 4 * bytes@.len() {
                original_len as int
            } else {
                4 * bytes@.len() as int
            },
        ),
        data@.len() == if original_len <= 4 * bytes@.len() {
            original_len as int
        } else {
            4 * bytes@.len() as int
        },
        forall|i: int|
            0 <= i < data@.len() ==> #[trigger] data@[i] == match two_bit_field(bytes@[i / 4], i % 4) {
                0u8 => Trit::Neg,
                1u8 => Trit::Zero,
                2u8 => Trit::Pos,
                _ => Trit::Zero,
            },
{
    let mut result: Vec<Trit> = Vec::new();
    let mut b: usize = 0;
    let ghost all = unpacked(bytes@);
    while b < bytes.len()
        invariant
            0 <= b <= bytes@.len(),
            all == unpacked(bytes@),
            result@ == all.take(
                if original_len <= 4 * b {
                    original_len as int
                } else {
                    4 * b
                },
            ),
        decreases bytes@.len() - b,
    {
        let byte = bytes[b];
        let mut k: u32 = 0;
        while k < 4
            invariant
                0 <= b < bytes@.len(),
                byte == bytes@[b as int],
                all == unpacked(bytes@),
                0 <= k <= 4,
                result@ == all.take(
                    if original_len <= 4 * b + k {
                        original_len as int
                    } else {
                        4 * b + k
                    },
                ),
            ensures
                0 <= k <= 4,
                result@ == all.take(
                    if original_len <= 4 * b + k {
                        original_len as int
                    } else {
                        4 * b + k
                    },
                ),
                k == 4 || result@.len() >= original_len,
            decreases 4 - k,
        {
            if result.len() >= original_len {
                break;
            }
            let shift: u32 = 6 - 2 * k;
            let val = (byte >> shift) & 3;
            let t = if val == 0 {
                Trit::Neg
            } else if val == 1 {
                Trit::Zero
            } else if val == 2 {
                Trit::Pos
            } else {
                Trit::Zero
            };
            proof {
                let idx = 4 * b + k;
                assert(idx / 4 == b && idx % 4 == k);
                assert(all[idx as int] == t);
                assert(result@.push(t) =~= all.take(idx + 1));
            }
            result.push(t);
            k = k + 1;
        }
        assert(all.len() == 4 * bytes@.len());
        b = b + 1;
    }
    proof {
        lemma_unpacked_fields(bytes@);
    }
    result
}

proof fn lemma_digits_of_byte(a: u8, b: u8, c: u8, d: u8)
    requires
        a < 4,
        b < 4,
        c < 4,
        d < 4,
    ensures
        ({
            let x = (64 * a + 16 * b + 4 * c + d) as u8;
            &&& (x >> 6u8) & 3u8 == a
            &&& (x >> 4u8) & 3u8 == b
            &&& (x >> 2u8) & 3u8 == c
            &&& (x >> 0u8) & 3u8 == d
        }),
{
    assert(a < 4 && b < 4 && c < 4 && d < 4 ==> {
        let x = (64 * a + 16 * b + 4 * c + d) as u8;
        &&& (x >> 6u8) & 3u8 == a
        &&& (x >> 4u8) & 3u8 == b
        &&& (x >> 2u8) & 3u8 == c
        &&& (x >> 0u8) & 3u8 == d
    }) by (bit_vector);
}

/// Unpacking the bytes that packing gives, and keeping as many trits as were
/// packed, returns the trits; packing uses one byte per four trits, rounded up.
pub proof fn lemma_entropy_roundtrip(data: Seq<Trit>)
    ensures
        packed(data).len() == (data.len() + 3) / 4,
        data.len() <= 4 * packed(data).len(),
        unpacked(packed(data)).take(data.len() as int) == data,
{
    let p = packed(data);
    let u = unpacked(p);
    assert forall|k: int| 0 <= k < data.len() implies #[trigger] u[k] == data[k] by {
        let j = k / 4;
        let c = chunk(data, j);
        let r = k % 4;
        assert(0 <= r < c.len());
        assert(c[r] == data[k]);
        let a = if 0 < c.len() { trit_bits(c[0]) } else { 0u8 };
        let b = if 1 < c.len() { trit_bits(c[1]) } else { 0u8 };
        let cc = if 2 < c.len() { trit_bits(c[2]) } else { 0u8 };
        let d = if 3 < c.len() { trit_bits(c[3]) } else { 0u8 };
        lemma_digits_of_byte(a, b, cc, d);
        assert(p[j] == (64 * a + 16 * b + 4 * cc + d) as u8);
        match data[k] {
            Trit::Neg => {},
            Trit::Zero => {},
            Trit::Pos => {},
        }
    }
    assert(u.take(data.len() as int) =~= data);
}

/// Every byte of a packing holds its four trits in its four two-bit fields,
/// the first trit in the highest field: Neg as 0, Zero as 1, Pos as 2, and 0
/// where the data has ended. No field of a packed byte is 3.
pub proof fn lemma_packed_fields(data: Seq<Trit>)
    ensures
        packed(data).len() == (data.len() + 3) / 4,
        forall|j: int, k: int|
            0 <= j < packed(data).len() && 0 <= k < 4 ==> #[trigger] two_bit_field(packed(data)[j], k)
                == if 4 * j + k < data.len() {
                match data[4 * j + k] {
                    Trit::Neg => 0u8,
                    Trit::Zero => 1u8,
                    Trit::Pos => 2u8,
                }
            } else {
                0u8
            },
        forall|j: int, k: int|
            0 <= j < packed(data).len() && 0 <= k < 4 ==> #[trigger] two_bit_field(packed(data)[j], k)
                < 3,
{
    let p = packed(data);
    let n = data.len() as int;
    assert forall|j: int, k: int| 0 <= j < p.len() && 0 <= k < 4 implies #[trigger] two_bit_field(
        p[j],
        k,
    ) == if 4 * j + k < n {
        match data[4 * j + k] {
            Trit::Neg => 0u8,
            Trit::Zero => 1u8,
            Trit::Pos => 2u8,
        }
    } else {
        0u8
    } && two_bit_field(p[j], k) < 3 by {
        assert(4 * j < n) by (nonlinear_arith)
            requires
                0 <= j < (n + 3) / 4,
                n >= 0,
        ;
        let c = chunk(data, j);
        assert(c.len() == if 4 * j + 4 <= n { 4 } else { n - 4 * j });
        let a = if 0 < c.len() { trit_bits(c[0]) } else { 0u8 };
        let b = if 1 < c.len() { trit_bits(c[1]) } else { 0u8 };
        let cc = if 2 < c.len() { trit_bits(c[2]) } else { 0u8 };
        let d = if 3 < c.len() { trit_bits(c[3]) } else { 0u8 };
        assert(a < 3 && b < 3 && cc < 3 && d < 3);
        lemma_digits_of_byte(a, b, cc, d);
        assert(p[j] == (64 * a + 16 * b + 4 * cc + d) as u8);
        if 4 * j + k < n {
            assert(c[k] == data[4 * j + k]);
        }
        if k == 0 {
            assert(two_bit_field(p[j], k) == a);
        } else if k == 1 {
            assert(two_bit_field(p[j], k) == b);
        } else if k == 2 {
            assert(two_bit_field(p[j], k) == cc);
        } else {
            assert(two_bit_field(p[j], k) == d);
        }
    }
}

/// Unpacking reads every byte field by field, the highest first, with one map
/// for every field: 0 is Neg, 1 is Zero, 2 is Pos and 3 is Zero.
pub proof fn lemma_unpacked_fields(bytes: Seq<u8>)
    ensures
        unpacked(bytes).len() == 4 * bytes.len(),
        forall|i: int|
            0 <= i < 4 * bytes.len() ==> #[trigger] unpacked(bytes)[i] == match two_bit_field(
                bytes[i / 4],
                i % 4,
            ) {
                0u8 => Trit::Neg,
                1u8 => Trit::Zero,
                2u8 => Trit::Pos,
                _ => Trit::Zero,
            },
{
}

} // verus!
