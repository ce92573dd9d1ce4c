//! Little-endian bit-sequence model of the wire format.
//!
//! Every buffer is modelled as a `Seq<bool>`: the bits of its bytes in order,
//! least significant bit of each byte first.  A value written at width `n`
//! contributes its `n` low-order bits, least significant first, so a value
//! spanning a byte boundary is split exactly as the byte-level cursor
//! arithmetic splits it.

use vstd::arithmetic::power2::{lemma2_to64, lemma_pow2_pos, lemma_pow2_unfold, pow2};
use vstd::prelude::*;

verus! {

/// Bit `i` of a byte, counting from the least significant bit.
pub open spec fn u8_bit(v: u8, i: u8) -> bool {
    (v >> i) & 1 == 1
}

/// Bit `i` of a 64-bit word, counting from the least significant bit.
pub open spec fn u64_bit(v: u64, i: u64) -> bool {
    (v >> i) & 1 == 1
}

/// The `n` low-order bits of `v`, least significant first.
pub open spec fn to_bits(v: u64, n: nat) -> Seq<bool> {
    Seq::new(n, |i: int| u64_bit(v, i as u64))
}

/// The value denoted by a little-endian bit sequence.
pub open spec fn from_bits(s: Seq<bool>) -> nat
    decreases s.len(),
{
    if s.len() == 0 {
        0
    } else {
        (if s[0] {
            1nat
        } else {
            0nat
        }) + 2 * from_bits(s.skip(1))
    }
}

/// All bits of a byte sequence, least significant bit of each byte first.
pub open spec fn byte_bits(b: Seq<u8>) -> Seq<bool> {
    Seq::new(b.len() * 8, |i: int| u8_bit(b[i / 8], (i % 8) as u8))
}

/// A byte's bits agree with the bits of its 64-bit widening.
pub proof fn lemma_u8_bit_widen(v: u8, i: u8)
    by (bit_vector)
    requires
        i < 8,
    ensures
        u8_bit(v, i) == u64_bit(v as u64, i as u64),
{
}

/// Shifting right by `a` moves bit `a + j` down to position `j`.
pub proof fn lemma_shr_bit(v: u64, a: u64, j: u64)
    by (bit_vector)
    requires
        a + j < 64,
    ensures
        u64_bit(v >> a, j) == u64_bit(v, (a + j) as u64),
{
}

/// A value below `pow2(n)` has no bits at positions `n` and above.
pub proof fn lemma_high_bits_zero(v: u64, n: nat, i: u64)
    requires
        n <= 64,
        (v as nat) < pow2(n),
        n <= i < 64,
    ensures
        !u64_bit(v, i),
{
    let nn = n as u64;
    if n < 64 {
        shift_is_div(v, n);
        lemma_pow2_pos(n);
        vstd::arithmetic::div_mod::lemma_basic_div(v as int, pow2(n) as int);
        assert(v >> nn == 0 && nn <= i < 64 ==> !u64_bit(v, i)) by (bit_vector);
    }
}

/// Right shift divides by the corresponding power of two.
proof fn shift_is_div(v: u64, n: nat)
    requires
        n < 64,
    ensures
        (v >> (n as u64)) as nat == (v as nat) / pow2(n),
{
    vstd::bits::lemma_u64_shr_is_div(v, n as u64);
    vstd::bits::lemma_u64_pow2_no_overflow(n);
}

/// A bit sequence's value is bounded by the power of two of its width.
pub proof fn lemma_from_bits_bound(s: Seq<bool>)
    ensures
        from_bits(s) < pow2(s.len()),
    decreases s.len(),
{
    if s.len() == 0 {
        assert(pow2(0) == 1) by {
            lemma2_to64();
        }
    } else {
        lemma_from_bits_bound(s.skip(1));
        lemma_pow2_unfold(s.len());
    }
}

/// Writing a value at width `n` and reading those `n` bits back yields the
/// value unchanged, for every width `n` up to 64 and every value
/// representable in `n` bits.
pub proof fn lemma_bits_round_trip(v: u64, n: nat)
    requires
        n <= 64,
        (v as nat) < pow2(n),
    ensures
        from_bits(to_bits(v, n)) == v,
    decreases n,
{
    if n == 0 {
        assert(pow2(0) == 1) by {
            lemma2_to64();
        }
    } else {
        let half = v >> 1u64;
        assert(half as nat == (v as nat) / 2) by {
            shift_is_div(v, 1);
            lemma_pow2_unfold(1);
            lemma2_to64();
        }
        lemma_pow2_unfold(n);
        assert((half as nat) < pow2((n - 1) as nat));
        lemma_bits_round_trip(half, (n - 1) as nat);
        assert(to_bits(v, n).skip(1) =~= to_bits(half, (n - 1) as nat)) by {
            assert forall|j: int| 0 <= j < n - 1 implies to_bits(v, n).skip(1)[j] == to_bits(
                half,
                (n - 1) as nat,
            )[j] by {
                lemma_shr_bit(v, 1, j as u64);
            }
        }
        assert(v == (if u64_bit(v, 0) {
            1u64
        } else {
            0u64
        }) + 2 * (v >> 1u64)) by (bit_vector);
    }
}

/// The bits of a sequence's value are the sequence itself: reading a span
/// back from the value loses nothing.
pub proof fn lemma_from_bits_to_bits(s: Seq<bool>)
    requires
        s.len() <= 64,
    ensures
        to_bits(from_bits(s) as u64, s.len()) =~= s,
    decreases s.len(),
{
    lemma_from_bits_bound(s);
    lemma_pow2_values();
    let m = from_bits(s) as u64;
    if s.len() == 0 {
    } else {
        let tail = s.skip(1);
        lemma_from_bits_bound(tail);
        lemma_from_bits_to_bits(tail);
        assert(from_bits(tail) < pow2(63)) by {
            if tail.len() < 63 {
                vstd::arithmetic::power2::lemma_pow2_strictly_increases(tail.len(), 63);
            }
        }
        let k = from_bits(tail) as u64;
        assert(m == (if s[0] {
            1u64
        } else {
            0u64
        }) + 2 * k);
        let b0: u64 = if s[0] {
            1u64
        } else {
            0u64
        };
        assert(u64_bit(m, 0) == (b0 == 1) && m >> 1u64 == k) by (bit_vector)
            requires
                b0 <= 1,
                m == b0 + 2 * k,
                k < 0x8000000000000000,
        ;
        assert forall|i: int| 0 <= i < s.len() implies to_bits(m, s.len())[i] == s[i] by {
            if i > 0 {
                lemma_shr_bit(m, 1, (i - 1) as u64);
                assert(to_bits(k, tail.len())[i - 1] == tail[i - 1]);
            }
        }
    }
}

/// The powers of two up to the word width, as concrete values.
pub proof fn lemma_pow2_values()
    ensures
        pow2(8) == 0x100,
        pow2(16) == 0x10000,
        pow2(32) == 0x100000000,
        pow2(63) == 0x8000000000000000,
        pow2(64) == 0x10000000000000000,
{
    lemma2_to64();
    vstd::arithmetic::power2::lemma2_to64_rest();
}

/// The value of a concatenation: the first part contributes its value, the
/// second part contributes its value scaled past the first part's width.
pub proof fn lemma_from_bits_concat(a: Seq<bool>, b: Seq<bool>)
    ensures
        from_bits(a + b) == from_bits(a) + pow2(a.len()) * from_bits(b),
    decreases a.len(),
{
    if a.len() == 0 {
        assert(a + b =~= b);
        assert(pow2(0) == 1) by {
            lemma2_to64();
        }
    } else {
        assert((a + b).skip(1) =~= a.skip(1) + b);
        lemma_from_bits_concat(a.skip(1), b);
        lemma_pow2_unfold(a.len());
        let p = pow2((a.len() - 1) as nat);
        assert(2 * (from_bits(a.skip(1)) + p * from_bits(b)) == 2 * from_bits(a.skip(1)) + (2 * p)
            * from_bits(b)) by (nonlinear_arith);
    }
}

/// A bit sequence that agrees with the bits of a value of its width denotes
/// that value.
pub proof fn lemma_bits_of_value(s: Seq<bool>, v: u64, n: nat)
    requires
        n <= 64,
        (v as nat) < pow2(n),
        s.len() == n,
        forall|i: int| 0 <= i < n ==> s[i] == u64_bit(v, i as u64),
    ensures
        from_bits(s) == v,
{
    assert(s =~= to_bits(v, n));
    lemma_bits_round_trip(v, n);
}

/// A value's bits split at any point: the low part at its own width followed
/// by the shifted-down high part.
pub proof fn lemma_to_bits_split(v: u64, a: nat, b: nat)
    requires
        a + b <= 64,
    ensures
        to_bits(v, a + b) =~= to_bits(v, a) + to_bits(v >> (a as u64), b),
{
    let joined = to_bits(v, a) + to_bits(v >> (a as u64), b);
    assert forall|i: int| 0 <= i < a + b implies joined[i] == u64_bit(v, i as u64) by {
        if i >= a {
            lemma_shr_bit(v, a as u64, (i - a) as u64);
        }
    }
}

/// Narrowing to a byte keeps the eight low-order bits.
pub proof fn lemma_truncate_bits(v: u64, i: u64)
    by (bit_vector)
    requires
        i < 8,
    ensures
        u64_bit((v as u8) as u64, i) == u64_bit(v, i),
{
}

/// The bits of concatenated byte sequences are the concatenated bits.
pub proof fn lemma_byte_bits_concat(a: Seq<u8>, b: Seq<u8>)
    ensures
        byte_bits(a + b) =~= byte_bits(a) + byte_bits(b),
{
    assert forall|i: int| 0 <= i < 8 * (a.len() + b.len()) implies byte_bits(a + b)[i] == (
    byte_bits(a) + byte_bits(b))[i] by {
        if i < 8 * a.len() {
            assert(i / 8 < a.len()) by (nonlinear_arith)
                requires
                    0 <= i < 8 * a.len(),
            ;
        } else {
            let j = i - 8 * a.len();
            assert(i / 8 == j / 8 + a.len() && i % 8 == j % 8) by (nonlinear_arith)
                requires
                    j == i - 8 * a.len(),
                    0 <= j,
                    0 <= i,
            ;
        }
    }
}

/// Appending one byte appends its eight bits.
pub proof fn lemma_byte_bits_push(s: Seq<u8>, x: u8)
    ensures
        byte_bits(s.push(x)) =~= byte_bits(s) + to_bits(x as u64, 8),
{
    assert(s.push(x) =~= s + seq![x]);
    lemma_byte_bits_concat(s, seq![x]);
    assert(byte_bits(seq![x]) =~= to_bits(x as u64, 8)) by {
        assert forall|i: int| 0 <= i < 8 implies byte_bits(seq![x])[i] == to_bits(x as u64, 8)[i]
            by {
            lemma_u8_bit_widen(x, i as u8);
        }
    }
}

/// One byte's slice of a byte sequence's bits is that byte's bits.
pub proof fn lemma_byte_bits_chunk(s: Seq<u8>, k: int)
    requires
        0 <= k < s.len(),
    ensures
        byte_bits(s).subrange(8 * k, 8 * k + 8) =~= to_bits(s[k] as u64, 8),
{
    let chunk = byte_bits(s).subrange(8 * k, 8 * k + 8);
    let lifted = to_bits(s[k] as u64, 8);
    assert forall|i: int| 0 <= i < 8 implies chunk[i] == lifted[i] by {
        vstd::arithmetic::div_mod::lemma_fundamental_div_mod_converse(8 * k + i, 8, k, i);
        lemma_u8_bit_widen(s[k], i as u8);
    }
}

/// A value written at any bit offset is recovered by reading its width at
/// that offset, whatever was packed before or after it: packing never
/// corrupts a neighbouring value.
pub proof fn lemma_packed_value_round_trip(pre: Seq<bool>, v: u64, n: nat, post: Seq<bool>)
    requires
        n <= 64,
        (v as nat) < pow2(n),
    ensures
        from_bits((pre + to_bits(v, n) + post).subrange(
            pre.len() as int,
            (pre.len() + n) as int,
        )) == v,
{
    assert((pre + to_bits(v, n) + post).subrange(pre.len() as int, (pre.len() + n) as int)
        =~= to_bits(v, n));
    lemma_bits_round_trip(v, n);
}

} // verus!

