//! Bit-sequence model shared by the whole crate.
//!
//! A byte buffer is viewed as a `Seq<bool>` of its bits, most-significant
//! bit of each byte first, which is the order in which the stream writer
//! emits them and the reader consumes them.  `bits_val` maps such a bit
//! string back to the unsigned value it spells.
use vstd::prelude::*;
use vstd::arithmetic::power2::{pow2, lemma_pow2_unfold, lemma_pow2_adds, lemma2_to64};
use vstd::arithmetic::div_mod::{lemma_fundamental_div_mod, lemma_fundamental_div_mod_converse};

verus! {

/// Bit `k` of a byte, counting from the least-significant end.
pub open spec fn u8_bit(b: u8, k: u64) -> bool {
    (b >> k) & 1 == 1
}

/// Bit `k` of a 64-bit word, counting from the least-significant end.
pub open spec fn u64_bit(u: u64, k: u64) -> bool {
    (u >> k) & 1 == 1
}

/// The bits of one byte, most-significant first.
pub open spec fn byte_bits(b: u8) -> Seq<bool> {
    Seq::new(8, |i: int| u8_bit(b, (7 - i) as u64))
}

/// The bits of a byte string, most-significant bit of each byte first.
pub open spec fn stream_bits(s: Seq<u8>) -> Seq<bool> {
    Seq::new(s.len() * 8, |i: int| u8_bit(s[i / 8], (7 - (i % 8)) as u64))
}

/// The `n` low bits of `u`, most-significant first.
pub open spec fn bits_of(u: u64, n: int) -> Seq<bool> {
    Seq::new(n as nat, |i: int| u64_bit(u, (n - 1 - i) as u64))
}

/// The unsigned value spelled by a bit string whose first bit is the most
/// significant.
pub open spec fn bits_val(s: Seq<bool>) -> nat
    decreases s.len(),
{
    if s.len() == 0 {
        0
    } else {
        bits_val(s.drop_last()) * 2 + (if s.last() {
            1nat
        } else {
            0nat
        })
    }
}

/// The mask with the `n` low bits set, for `1 <= n <= 64`.
pub open spec fn mask64(n: u64) -> u64 {
    0xffff_ffff_ffff_ffffu64 >> ((64 - n) as u64)
}

// ------------------------------------------------------------------
// Single-bit facts about the machine operations, each discharged by the
// bit-vector solver.
// ------------------------------------------------------------------

pub proof fn lemma_u64_bit_shr(u: u64, s: u64, k: u64)
    by (bit_vector)
    requires
        s <= 64,
        k <= 64,
    ensures
        s + k < 64 ==> u64_bit(u >> s, k) == u64_bit(u, (s + k) as u64),
        s + k >= 64 ==> !u64_bit(u >> s, k),
{
}

pub proof fn lemma_u64_bit_shl(u: u64, s: u64, k: u64)
    by (bit_vector)
    requires
        s <= 64,
        k < 64,
    ensures
        k >= s ==> u64_bit(u << s, k) == u64_bit(u, (k - s) as u64),
        k < s ==> !u64_bit(u << s, k),
{
}

pub proof fn lemma_u64_bit_or(a: u64, b: u64, k: u64)
    by (bit_vector)
    requires
        k < 64,
    ensures
        u64_bit(a | b, k) == (u64_bit(a, k) || u64_bit(b, k)),
{
}

pub proof fn lemma_u64_bit_mask(u: u64, n: u64, k: u64)
    by (bit_vector)
    requires
        1 <= n <= 64,
        k < 64,
    ensures
        u64_bit(u & mask64(n), k) == (k < n && u64_bit(u, k)),
{
}

pub proof fn lemma_u8_bit_in_u64(b: u8, k: u64)
    by (bit_vector)
    requires
        k < 64,
    ensures
        k < 8 ==> u64_bit(b as u64, k) == u8_bit(b, k),
        k >= 8 ==> !u64_bit(b as u64, k),
{
}

pub proof fn lemma_u64_low_byte(u: u64, k: u64)
    by (bit_vector)
    requires
        k < 8,
    ensures
        u8_bit(u as u8, k) == u64_bit(u, k),
{
}

pub proof fn lemma_u8_bit_or(a: u8, b: u8, k: u64)
    by (bit_vector)
    requires
        k < 8,
    ensures
        u8_bit(a | b, k) == (u8_bit(a, k) || u8_bit(b, k)),
{
}

pub proof fn lemma_u8_bit_one(c: u64, k: u64)
    by (bit_vector)
    requires
        c < 8,
        k < 8,
    ensures
        u8_bit((1u8 << c), k) == (k == c),
{
}

pub proof fn lemma_u8_bit_shl(b: u8, s: u64, k: u64)
    by (bit_vector)
    requires
        s < 8,
        k < 8,
    ensures
        k >= s ==> u8_bit(b << s, k) == u8_bit(b, (k - s) as u64),
        k < s ==> !u8_bit(b << s, k),
{
}

pub proof fn lemma_u8_bit_shr(b: u8, s: u64, k: u64)
    by (bit_vector)
    requires
        s < 8,
        k < 8,
    ensures
        s + k < 8 ==> u8_bit(b >> s, k) == u8_bit(b, (s + k) as u64),
        s + k >= 8 ==> !u8_bit(b >> s, k),
{
}

// ------------------------------------------------------------------
// Structural facts about the sequence views.
// ------------------------------------------------------------------

pub proof fn lemma_stream_bits_push(s: Seq<u8>, b: u8)
    ensures
        stream_bits(s.push(b)) == stream_bits(s) + byte_bits(b),
{
    let l = s.len() as int;
    let lhs = stream_bits(s.push(b));
    let rhs = stream_bits(s) + byte_bits(b);
    assert forall|i: int| 0 <= i < lhs.len() implies lhs[i] == rhs[i] by {
        if i < 8 * l {
            assert(0 <= i / 8 < l && i / 8 * 8 <= i) by (nonlinear_arith)
                requires
                    0 <= i,
                    i < 8 * l,
            ;
        } else {
            assert(i / 8 == l && i % 8 == i - 8 * l) by (nonlinear_arith)
                requires
                    8 * l <= i,
                    i < 8 * l + 8,
                    0 <= l,
            ;
        }
    }
    assert(lhs =~= rhs);
}

pub proof fn lemma_stream_bits_update(s: Seq<u8>, j: int, b: u8)
    requires
        0 <= j < s.len(),
    ensures
        stream_bits(s.update(j, b)).len() == stream_bits(s).len(),
        forall|i: int|
            0 <= i < stream_bits(s).len() && !(8 * j <= i < 8 * j + 8) ==> stream_bits(
                s.update(j, b),
            )[i] == stream_bits(s)[i],
        forall|i: int|
            8 * j <= i < 8 * j + 8 ==> stream_bits(s.update(j, b))[i] == byte_bits(b)[i - 8 * j],
{
    let l = s.len() as int;
    assert forall|i: int|
        0 <= i < stream_bits(s).len() && !(8 * j <= i < 8 * j + 8) implies stream_bits(
        s.update(j, b),
    )[i] == stream_bits(s)[i] by {
        assert(i / 8 != j && 0 <= i / 8 < l) by (nonlinear_arith)
            requires
                0 <= i,
                i < 8 * l,
                0 <= j < l,
                !(8 * j <= i < 8 * j + 8),
        ;
    }
    assert forall|i: int| 8 * j <= i < 8 * j + 8 implies stream_bits(s.update(j, b))[i]
        == byte_bits(b)[i - 8 * j] by {
        assert(i / 8 == j && i % 8 == i - 8 * j) by (nonlinear_arith)
            requires
                8 * j <= i,
                i < 8 * j + 8,
                0 <= j,
        ;
    }
}

/// A byte's bit string is the 8-bit string of its value.
pub proof fn lemma_byte_bits_as_bits_of(b: u8)
    ensures
        byte_bits(b) == bits_of(b as u64, 8),
{
    assert forall|i: int| 0 <= i < 8 implies byte_bits(b)[i] == bits_of(b as u64, 8)[i] by {
        lemma_u8_bit_in_u64(b, (7 - i) as u64);
    }
    assert(byte_bits(b) =~= bits_of(b as u64, 8));
}

// ------------------------------------------------------------------
// Value of a bit string.
// ------------------------------------------------------------------

pub proof fn lemma_bits_val_bound(s: Seq<bool>)
    ensures
        bits_val(s) < pow2(s.len()),
    decreases s.len(),
{
    if s.len() == 0 {
        assert(pow2(0) == 1) by { lemma2_to64(); }
    } else {
        lemma_bits_val_bound(s.drop_last());
        lemma_pow2_unfold(s.len());
    }
}

pub proof fn lemma_bits_val_concat(a: Seq<bool>, b: Seq<bool>)
    ensures
        bits_val(a + b) == bits_val(a) * pow2(b.len()) + bits_val(b),
    decreases b.len(),
{
    if b.len() == 0 {
        assert(a + b =~= a);
        assert(pow2(0) == 1) by { lemma2_to64(); }
    } else {
        assert((a + b).drop_last() =~= a + b.drop_last());
        assert((a + b).last() == b.last());
        lemma_bits_val_concat(a, b.drop_last());
        lemma_pow2_unfold(b.len());
        let p = pow2((b.len() - 1) as nat);
        assert((bits_val(a) * p + bits_val(b.drop_last())) * 2 == bits_val(a) * (p * 2)
            + bits_val(b.drop_last()) * 2) by (nonlinear_arith);
    }
}

/// The value spelled by the `n`-bit string of `u` is `u` reduced mod `2^n`:
/// writing the low `n` bits of a value and reading them back recovers the
/// value truncated to that width.
pub proof fn lemma_bits_of_val(u: u64, n: int)
    requires
        0 <= n <= 64,
    ensures
        bits_val(bits_of(u, n)) == u as nat % pow2(n as nat),
    decreases n,
{
    if n == 0 {
        assert(bits_of(u, 0) =~= Seq::<bool>::empty());
        assert(pow2(0) == 1) by { lemma2_to64(); }
    } else {
        let s = bits_of(u, n);
        assert forall|i: int| 0 <= i < n - 1 implies s.drop_last()[i] == bits_of(u >> 1u64, n - 1)[i]
            by {
            lemma_u64_bit_shr(u, 1, (n - 2 - i) as u64);
        }
        assert(s.drop_last() =~= bits_of(u >> 1u64, n - 1));
        lemma_bits_of_val(u >> 1u64, n - 1);
        assert(u >> 1u64 == u / 2 && ((u >> 0u64) & 1 == 1) == (u % 2 == 1)) by (bit_vector);
        let h = pow2((n - 1) as nat) as int;
        lemma_pow2_unfold(n as nat);
        assert(pow2(n as nat) == 2 * h);
        let q = (u as int / 2) / h;
        let r = (u as int / 2) % h;
        assert(h > 0) by { vstd::arithmetic::power2::lemma_pow2_pos((n - 1) as nat); }
        lemma_fundamental_div_mod(u as int, 2);
        lemma_fundamental_div_mod(u as int / 2, h);
        assert(u as int == q * (2 * h) + (r * 2 + u as int % 2)) by (nonlinear_arith)
            requires
                u as int == 2 * (u as int / 2) + u as int % 2,
                u as int / 2 == h * q + r,
        ;
        lemma_fundamental_div_mod_converse(u as int, 2 * h, q, r * 2 + u as int % 2);
        assert(bits_val(s) == r * 2 + u as int % 2);
    }
}

/// Two words with the same 64 bits are the same word.
pub proof fn lemma_u64_eq_by_bits(a: u64, b: u64)
    requires
        forall|k: u64| k < 64 ==> u64_bit(a, k) == u64_bit(b, k),
    ensures
        a == b,
{
    assert forall|i: int| 0 <= i < 64 implies bits_of(a, 64)[i] == bits_of(b, 64)[i] by {
        assert(u64_bit(a, (63 - i) as u64) == u64_bit(b, (63 - i) as u64));
    }
    assert(bits_of(a, 64) =~= bits_of(b, 64));
    lemma_bits_of_val(a, 64);
    lemma_bits_of_val(b, 64);
    lemma_bits_val_bound(bits_of(a, 64));
    assert(a as nat % pow2(64) == a) by {
        vstd::arithmetic::power2::lemma2_to64_rest();
        assert((a as nat) < pow2(64));
        vstd::arithmetic::div_mod::lemma_small_mod(a as nat, pow2(64));
    }
    assert(b as nat % pow2(64) == b) by {
        vstd::arithmetic::power2::lemma2_to64_rest();
        assert((b as nat) < pow2(64));
        vstd::arithmetic::div_mod::lemma_small_mod(b as nat, pow2(64));
    }
}

/// Two bytes with the same eight bits are the same byte.
pub proof fn lemma_u8_eq_by_bits(a: u8, b: u8)
    requires
        forall|k: u64| k < 8 ==> u8_bit(a, k) == u8_bit(b, k),
    ensures
        a == b,
{
    assert forall|k: u64| k < 64 implies #[trigger] u64_bit(a as u64, k) == u64_bit(
        b as u64,
        k,
    ) by {
        lemma_u8_bit_in_u64(a, k);
        lemma_u8_bit_in_u64(b, k);
    }
    lemma_u64_eq_by_bits(a as u64, b as u64);
}

/// A word whose bits at `n` and above are clear is below `2^n`.
pub proof fn lemma_u64_bound_from_bits(u: u64, n: u64)
    requires
        n <= 64,
        forall|k: u64| n <= k < 64 ==> !u64_bit(u, k),
    ensures
        u < pow2(n as nat),
{
    lemma_bits_of_val(u, 64);
    let s = bits_of(u, 64);
    let hi = s.subrange(0, 64 - n as int);
    let lo = s.subrange(64 - n as int, 64);
    assert(s =~= hi + lo);
    lemma_bits_val_concat(hi, lo);
    assert forall|i: int| 0 <= i < hi.len() implies !(#[trigger] hi[i]) by {
        assert(!u64_bit(u, (63 - i) as u64));
    }
    lemma_bits_val_zero(hi);
    assert(bits_val(s) == bits_val(lo));
    assert forall|i: int| 0 <= i < n implies lo[i] == bits_of(u, n as int)[i] by {}
    assert(lo =~= bits_of(u, n as int));
    lemma_bits_val_bound(lo);
    vstd::arithmetic::power2::lemma2_to64_rest();
    assert((u as nat) < pow2(64));
    vstd::arithmetic::div_mod::lemma_small_mod(u as nat, pow2(64));
    assert(u as nat == bits_val(s));
    assert(u as nat == bits_val(lo));
}

/// An all-zero bit string spells zero.
pub proof fn lemma_bits_val_zero(s: Seq<bool>)
    requires
        forall|i: int| 0 <= i < s.len() ==> !s[i],
    ensures
        bits_val(s) == 0,
    decreases s.len(),
{
    if s.len() > 0 {
        lemma_bits_val_zero(s.drop_last());
    }
}

} // verus!
