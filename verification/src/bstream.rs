//! Bit-stream writer and reader primitives, and the variable-length
//! integer codec layered on them.
//!
//! `Bstream` accumulates bits most-significant-bit-first into a growable
//! byte buffer; `BstreamReader` is a non-owning cursor over an immutable
//! byte buffer with a buffered lookahead word.  Contracts are stated over
//! the bit-sequence view of `crate::bitseq`.
use vstd::prelude::*;
use crate::bitseq::{
    u8_bit, u64_bit, byte_bits, stream_bits, bits_of, bits_val, mask64, lemma_u64_bit_shr,
    lemma_u64_bit_shl, lemma_u64_bit_or, lemma_u64_bit_mask, lemma_u8_bit_in_u64,
    lemma_u64_low_byte, lemma_u8_bit_or, lemma_u8_bit_one, lemma_u8_bit_shl, lemma_u8_bit_shr,
    lemma_stream_bits_push, lemma_stream_bits_update, lemma_byte_bits_as_bits_of,
    lemma_bits_of_val, lemma_u64_bound_from_bits,
};
use vstd::arithmetic::power2::{pow2, lemma2_to64, lemma2_to64_rest, lemma_pow2_adds};
use vstd::arithmetic::div_mod::lemma_small_mod;

verus! {

/// A reader or decoder failure.
#[derive(Clone, Copy, Debug, PartialEq, Eq, Structural)]
pub enum Error {
    /// A read would consume more bits than remain in the backing buffer.
    EndOfStream,
    /// A decoded zero-bit window was self-contradictory.
    InvalidWindow,
}

/// How many bytes the longest unsigned varint occupies: 64 bits at 7
/// payload bits per byte.
pub const MAX_VARINT_LEN64: usize = 10;

// ------------------------------------------------------------------
// Writer
// ------------------------------------------------------------------

/// The free-bit count after `m` single-bit writes (`0 <= m <= 7`): an
/// exhausted byte is replaced by a fresh one of 7 remaining bits.
pub open spec fn free_after_partial(f: nat, m: int) -> nat {
    if f >= m {
        (f - m) as nat
    } else {
        (f + 8 - m) as nat
    }
}

/// The free-bit count after one or more whole-byte writes: a byte write
/// into a full byte leaves a fresh, entirely free byte behind, and
/// otherwise keeps the count.
pub open spec fn free_after_bytes(f: nat) -> nat {
    if f == 0 {
        8
    } else {
        f
    }
}

/// The free-bit count after `write_bits(_, n)`: whole bytes first, then
/// the remaining bits one by one.
pub open spec fn free_after_write(f: nat, n: int) -> nat {
    if n >= 8 {
        free_after_partial(free_after_bytes(f), n % 8)
    } else {
        free_after_partial(f, n % 8)
    }
}

/// A stream of bits backed by a growable byte buffer.  Bits are appended
/// most-significant-bit-first within each byte; the low `count` bits of
/// the last byte are still free and held at zero.
pub struct Bstream {
    stream: Vec<u8>,
    count: u8,
}

impl Bstream {
    /// The raw byte buffer, including the zero padding of the last byte.
    pub closed spec fn raw(&self) -> Seq<u8> {
        self.stream@
    }

    /// How many bits of the last byte are still free.
    pub closed spec fn free(&self) -> nat {
        self.count as nat
    }

    pub closed spec fn wf(&self) -> bool {
        &&& self.count <= 8
        &&& (self.count > 0 ==> self.stream@.len() > 0)
        &&& (forall|k: u64| k < self.count ==> !u8_bit(self.stream@.last(), k))
    }

    /// The bits written so far.
    pub closed spec fn bits(&self) -> Seq<bool> {
        stream_bits(self.stream@).take(stream_bits(self.stream@).len() - self.count)
    }

    /// The byte buffer spells exactly the written bits followed by zero
    /// padding up to the next byte boundary.
    pub proof fn lemma_raw_bits(&self)
        requires
            self.wf(),
        ensures
            self.free() <= 8,
            self.bits().len() + self.free() == stream_bits(self.raw()).len(),
            self.free() < 8 || self.bits().len() + 8 == stream_bits(self.raw()).len(),
            forall|i: int|
                0 <= i < self.bits().len() ==> stream_bits(self.raw())[i] == self.bits()[i],
            forall|i: int|
                self.bits().len() <= i < stream_bits(self.raw()).len() ==> !stream_bits(
                    self.raw(),
                )[i],
    {
        let s = self.stream@;
        let l = s.len() as int;
        let c = self.count as int;
        assert forall|i: int| 8 * l - c <= i < 8 * l implies !stream_bits(s)[i] by {
            assert(i / 8 == l - 1 && i % 8 == i - 8 * (l - 1)) by (nonlinear_arith)
                requires
                    8 * (l - 1) <= i,
                    i < 8 * l,
                    1 <= l,
            ;
            assert(!u8_bit(s.last(), (8 * l - 1 - i) as u64));
        }
    }

    /// Creates a stream that continues after the given bytes, all of whose
    /// bits count as already written.
    pub fn new(stream: Vec<u8>) -> (r: Bstream)
        ensures
            r.wf(),
            r.raw() == stream@,
            r.bits() == stream_bits(stream@),
            r.free() == 0,
    {
        let r = Bstream { stream, count: 0 };
        proof {
            assert(r.bits() =~= stream_bits(r.stream@));
        }
        r
    }

    /// A borrowed view of the backing bytes.
    pub fn bytes(&self) -> (r: &Vec<u8>)
        ensures
            r@ == self.raw(),
    {
        &self.stream
    }

    /// Appends a single bit.
    pub fn write_bit(&mut self, bit: bool)
        requires
            old(self).wf(),
        ensures
            final(self).wf(),
            final(self).bits() == old(self).bits().push(bit),
            final(self).free() == free_after_partial(old(self).free(), 1),
            final(self).raw().len() == old(self).raw().len() + (if old(self).free() == 0 {
                1int
            } else {
                0int
            }),
    {
        if self.count == 0 {
            self.stream.push(0);
            self.count = 8;
            proof {
                lemma_stream_bits_push(old(self).stream@, 0);
                assert forall|k: u64| k < 8 implies !u8_bit(0u8, k) by {
                    assert((0u8 >> k) & 1 != 1) by (bit_vector);
                }
                assert forall|i: int| 0 <= i < self.bits().len() implies self.bits()[i] == old(
                    self,
                ).bits()[i] by {
                    if i >= old(self).bits().len() {
                        let j = i - 8 * (old(self).stream@.len() as int);
                        assert(!byte_bits(0u8)[j]);
                    }
                }
                assert(self.bits() =~= old(self).bits());
            }
        }
        let ghost pre = *self;
        let ghost l = self.stream@.len() as int;
        let ghost c = self.count as int;
        let i = self.stream.len() - 1;
        if bit {
            let b = self.stream[i] | (1u8 << (self.count - 1));
            self.stream.set(i, b);
            proof {
                lemma_stream_bits_update(pre.stream@, l - 1, b);
                assert forall|k: u64| k < 8 implies u8_bit(b, k) == (u8_bit(
                    pre.stream@.last(),
                    k,
                ) || k == c - 1) by {
                    lemma_u8_bit_or(pre.stream@.last(), 1u8 << ((c - 1) as u64), k);
                    lemma_u8_bit_one((c - 1) as u64, k);
                }
            }
        }
        self.count = self.count - 1;
        proof {
            let sb_pre = stream_bits(pre.stream@);
            let sb = stream_bits(self.stream@);
            assert(sb.len() == sb_pre.len());
            assert forall|idx: int| 0 <= idx < self.bits().len() implies self.bits()[idx]
                == pre.bits().push(bit)[idx] by {
                if 8 * (l - 1) <= idx {
                    assert(idx / 8 == l - 1 && idx % 8 == idx - 8 * (l - 1)) by (nonlinear_arith)
                        requires
                            8 * (l - 1) <= idx,
                            idx < 8 * l,
                            1 <= l,
                    ;
                    let k = (8 * l - 1 - idx) as u64;
                    if bit {
                        assert(sb[idx] == byte_bits(self.stream@[l - 1])[idx - 8 * (l - 1)]);
                    }
                    if idx < 8 * l - c {
                        assert(k >= c);
                    } else {
                        assert(k == c - 1);
                        assert(!u8_bit(pre.stream@.last(), (c - 1) as u64));
                    }
                } else {
                    assert(idx / 8 < l - 1 && 0 <= idx / 8) by (nonlinear_arith)
                        requires
                            0 <= idx,
                            idx < 8 * (l - 1),
                    ;
                    assert(sb[idx] == sb_pre[idx]);
                }
            }
            assert(self.bits() =~= pre.bits().push(bit));
            assert forall|k: u64| k < self.count implies !u8_bit(self.stream@.last(), k) by {
                if bit {
                    assert(u8_bit(self.stream@.last(), k) == (u8_bit(pre.stream@.last(), k) || k
                        == c - 1));
                }
            }
        }
    }

    /// Appends the eight bits of one byte, most-significant first.
    pub fn write_byte(&mut self, byte: u8)
        requires
            old(self).wf(),
        ensures
            final(self).wf(),
            final(self).bits() == old(self).bits() + byte_bits(byte),
            final(self).free() == free_after_bytes(old(self).free()),
            final(self).raw().len() == old(self).raw().len() + (if old(self).free() == 0 {
                2int
            } else {
                1int
            }),
    {
        if self.count == 0 {
            self.stream.push(0);
            self.count = 8;
            proof {
                lemma_stream_bits_push(old(self).stream@, 0);
                assert forall|k: u64| k < 8 implies !u8_bit(0u8, k) by {
                    assert((0u8 >> k) & 1 != 1) by (bit_vector);
                }
                assert forall|i: int| 0 <= i < self.bits().len() implies self.bits()[i] == old(
                    self,
                ).bits()[i] by {
                    if i >= old(self).bits().len() {
                        let j = i - 8 * (old(self).stream@.len() as int);
                        assert(!byte_bits(0u8)[j]);
                    }
                }
                assert(self.bits() =~= old(self).bits());
            }
        }
        let ghost pre = *self;
        let ghost l = self.stream@.len() as int;
        let ghost c = self.count as int;
        let i = self.stream.len() - 1;
        let b_hi = self.stream[i] | (byte >> (8 - self.count));
        self.stream.set(i, b_hi);
        let b_lo = if self.count == 8 {
            0
        } else {
            byte << self.count
        };
        self.stream.push(b_lo);
        proof {
            let mid = pre.stream@.update(l - 1, b_hi);
            lemma_stream_bits_update(pre.stream@, l - 1, b_hi);
            lemma_stream_bits_push(mid, b_lo);
            assert forall|k: u64| k < 8 implies u8_bit(b_hi, k) == (u8_bit(pre.stream@.last(), k)
                || (k < c && u8_bit(byte, (8 - c + k) as u64))) by {
                lemma_u8_bit_or(pre.stream@.last(), byte >> ((8 - c) as u64), k);
                lemma_u8_bit_shr(byte, (8 - c) as u64, k);
            }
            assert forall|k: u64| k < 8 implies u8_bit(b_lo, k) == (k >= c && u8_bit(
                byte,
                (k - c) as u64,
            )) by {
                if c == 8 {
                    assert((0u8 >> k) & 1 != 1) by (bit_vector);
                } else {
                    lemma_u8_bit_shl(byte, c as u64, k);
                }
            }
            let sb = stream_bits(self.stream@);
            assert(sb.len() == 8 * l + 8);
            let goal = pre.bits() + byte_bits(byte);
            assert forall|idx: int| 0 <= idx < self.bits().len() implies self.bits()[idx]
                == goal[idx] by {
                if idx < 8 * (l - 1) {
                    assert(idx / 8 < l - 1 && 0 <= idx / 8) by (nonlinear_arith)
                        requires
                            0 <= idx,
                            idx < 8 * (l - 1),
                    ;
                    assert(sb[idx] == stream_bits(mid)[idx]);
                    assert(stream_bits(mid)[idx] == stream_bits(pre.stream@)[idx]);
                } else if idx < 8 * l {
                    assert(sb[idx] == stream_bits(mid)[idx]);
                    assert(stream_bits(mid)[idx] == byte_bits(b_hi)[idx - 8 * (l - 1)]);
                    let k = (8 * l - 1 - idx) as u64;
                    assert(u8_bit(b_hi, k) == (u8_bit(pre.stream@.last(), k) || (k < c && u8_bit(
                        byte,
                        (8 - c + k) as u64,
                    ))));
                    if idx < 8 * l - c {
                        assert(k >= c);
                        assert(stream_bits(pre.stream@)[idx] == byte_bits(pre.stream@[l - 1])[idx
                            - 8 * (l - 1)]);
                        assert(goal[idx] == pre.bits()[idx]);
                    } else {
                        assert(k < c);
                        assert(!u8_bit(pre.stream@.last(), k));
                        assert(goal[idx] == byte_bits(byte)[idx - (8 * l - c)]);
                        assert(7 - (idx - (8 * l - c)) == 8 - c + (k as int));
                    }
                } else {
                    assert(sb[idx] == byte_bits(b_lo)[idx - 8 * l]);
                    let k = (8 * l + 7 - idx) as u64;
                    assert(idx < 8 * l + 8 - c);
                    assert(k >= c);
                    assert(u8_bit(b_lo, k) == u8_bit(byte, (k - c) as u64));
                    assert(goal[idx] == byte_bits(byte)[idx - (8 * l - c)]);
                }
            }
            assert(self.bits() =~= goal);
            assert forall|k: u64| k < self.count implies !u8_bit(self.stream@.last(), k) by {
                assert(u8_bit(b_lo, k) == (k >= c && u8_bit(byte, (k - c) as u64)));
            }
        }
    }

    /// Appends the `nbits` low bits of `u`, most-significant bit first.
    #[verifier::loop_isolation(false)]
    pub fn write_bits(&mut self, u: u64, nbits: i32)
        requires
            old(self).wf(),
            1 <= nbits <= 64,
        ensures
            final(self).wf(),
            final(self).bits() == old(self).bits() + bits_of(u, nbits as int),
            final(self).free() == free_after_write(old(self).free(), nbits as int),
    {
        let ghost n0 = nbits as int;
        let ghost goal = bits_of(u, n0);
        let mut w = u << ((64 - nbits) as u64);
        let mut nbits = nbits;
        proof {
            assert forall|i: int| 0 <= i < n0 implies #[trigger] goal[i] == u64_bit(
                w,
                (63 - i) as u64,
            ) by {
                lemma_u64_bit_shl(u, (64 - n0) as u64, (63 - i) as u64);
            }
        }
        while nbits >= 8
            invariant
                self.wf(),
                0 <= nbits <= 64,
                nbits <= n0,
                (nbits - n0) % 8 == 0,
                self.free() == (if nbits < n0 {
                    free_after_bytes(old(self).free())
                } else {
                    old(self).free()
                }),
                self.bits() == old(self).bits() + goal.take(n0 - nbits),
                forall|i: int|
                    n0 - nbits <= i < n0 ==> #[trigger] goal[i] == u64_bit(
                        w,
                        (63 - (i - (n0 - nbits))) as u64,
                    ),
            decreases nbits,
        {
            let byt = (w >> 56) as u8;
            self.write_byte(byt);
            proof {
                assert forall|j: int| 0 <= j < 8 implies #[trigger] byte_bits(byt)[j] == goal[n0
                    - nbits + j] by {
                    lemma_u64_low_byte(w >> 56u64, (7 - j) as u64);
                    lemma_u64_bit_shr(w, 56, (7 - j) as u64);
                }
                assert(goal.len() == n0);
                assert(0 <= n0 - nbits <= n0);
                let a = goal.take(n0 - nbits) + byte_bits(byt);
                let b = goal.take(n0 - (nbits - 8));
                assert(a.len() == b.len());
                assert forall|i: int| 0 <= i < b.len() implies a[i] == b[i] by {
                    if i < n0 - nbits {
                        assert(a[i] == goal[i]);
                    } else {
                        assert(a[i] == byte_bits(byt)[i - (n0 - nbits)]);
                    }
                    assert(b[i] == goal[i]);
                }
                assert(a =~= b);
            }
            let ghost w_pre = w;
            w = w << 8;
            proof {
                assert forall|i: int| n0 - (nbits - 8) <= i < n0 implies #[trigger] goal[i]
                    == u64_bit(w, (63 - (i - (n0 - (nbits - 8)))) as u64) by {
                    lemma_u64_bit_shl(w_pre, 8, (63 - (i - (n0 - (nbits - 8)))) as u64);
                }
            }
            nbits -= 8;
        }
        while nbits > 0
            invariant
                self.wf(),
                0 <= nbits <= 8,
                nbits <= n0,
                nbits <= n0 % 8 || (nbits == n0 && n0 < 8),
                self.free() == free_after_partial(
                    (if n0 >= 8 {
                        free_after_bytes(old(self).free())
                    } else {
                        old(self).free()
                    }),
                    (if n0 >= 8 {
                        n0 % 8
                    } else {
                        n0
                    }) - nbits,
                ),
                self.bits() == old(self).bits() + goal.take(n0 - nbits),
                forall|i: int|
                    n0 - nbits <= i < n0 ==> #[trigger] goal[i] == u64_bit(
                        w,
                        (63 - (i - (n0 - nbits))) as u64,
                    ),
            decreases nbits,
        {
            let bit = w >> 63;
            proof {
                assert((w >> 63u64 == 1) == ((w >> 63u64) & 1 == 1)) by (bit_vector);
                assert(goal[n0 - nbits] == u64_bit(w, 63));
            }
            self.write_bit(bit == 1);
            proof {
                assert(goal.len() == n0);
                let m = n0 - nbits;
                assert(0 <= m < n0);
                let a = goal.take(m).push(goal[m]);
                let b = goal.take(m + 1);
                assert(a.len() == b.len());
                assert forall|i: int| 0 <= i < b.len() implies a[i] == b[i] by {
                    if i < m {
                        assert(a[i] == goal[i]);
                    } else {
                        assert(a[i] == goal[m]);
                    }
                    assert(b[i] == goal[i]);
                }
                assert(a =~= b);
            }
            let ghost w_pre = w;
            w = w << 1;
            proof {
                assert forall|i: int| n0 - (nbits - 1) <= i < n0 implies #[trigger] goal[i]
                    == u64_bit(w, (63 - (i - (n0 - (nbits - 1)))) as u64) by {
                    lemma_u64_bit_shl(w_pre, 1, (63 - (i - (n0 - (nbits - 1)))) as u64);
                }
            }
            nbits -= 1;
        }
        proof {
            assert(goal.take(n0) =~= goal);
        }
    }

    /// Appends `u` as an unsigned base-128 varint: 7-bit groups, least
    /// significant first, each with a continuation high bit while more
    /// groups follow.
    #[verifier::loop_isolation(false)]
    pub fn write_uvarint(&mut self, u: u64)
        requires
            old(self).wf(),
        ensures
            final(self).wf(),
            final(self).bits() == old(self).bits() + uvarint_bits(u),
            final(self).free() == free_after_bytes(old(self).free()),
    {
        let mut x = u;
        while x >= 0x80
            invariant
                self.wf(),
                self.free() == old(self).free() || self.free() == free_after_bytes(
                    old(self).free(),
                ),
                self.free() > 0 ==> self.free() == free_after_bytes(self.free()),
                x < u ==> self.free() == free_after_bytes(old(self).free()),
                self.bits() + uvarint_bits(x) == old(self).bits() + uvarint_bits(u),
            decreases x,
        {
            let byte = (x as u8) | 0x80;
            self.write_byte(byte);
            proof {
                vstd::bits::lemma_u64_shr_is_div(x, 7);
                lemma2_to64();
                assert((self.bits() + uvarint_bits(x >> 7u64)) =~= (old(self).bits()
                    + uvarint_bits(u)));
            }
            x = x >> 7;
        }
        self.write_byte(x as u8);
        proof {
            assert(self.bits() =~= old(self).bits() + uvarint_bits(u));
        }
    }

    /// Appends `i` as a signed varint: the zigzag map (double the
    /// magnitude, complement if negative) followed by the unsigned code.
    pub fn write_varint(&mut self, i: i64)
        requires
            old(self).wf(),
        ensures
            final(self).wf(),
            final(self).bits() == old(self).bits() + uvarint_bits(zigzag(i)),
            final(self).free() == free_after_bytes(old(self).free()),
    {
        let mut ui = (i as u64) << 1;
        if i < 0 {
            ui = !ui;
        }
        self.write_uvarint(ui);
    }

    /// Overwrites the two header bytes in place without disturbing the
    /// write cursor; the header region must already be fully written.
    pub fn modify_first_two_bytes(&mut self, byt1: u8, byt2: u8)
        requires
            old(self).wf(),
            old(self).bits().len() >= 16,
        ensures
            final(self).wf(),
            final(self).bits().len() == old(self).bits().len(),
            final(self).bits() == byte_bits(byt1) + byte_bits(byt2) + old(self).bits().skip(16),
            final(self).free() == old(self).free(),
    {
        proof {
            assert(old(self).stream@.len() >= 2);
        }
        if self.stream.len() > 2 {
            self.stream.set(0, byt1);
            self.stream.set(1, byt2);
        } else {
            self.stream.resize(2, 0);
            self.stream.set(0, byt1);
            self.stream.set(1, byt2);
        }
        proof {
            let pre = old(self).stream@;
            let mid = pre.update(0, byt1);
            assert(self.stream@ =~= mid.update(1, byt2));
            lemma_stream_bits_update(pre, 0, byt1);
            lemma_stream_bits_update(mid, 1, byt2);
            let goal = byte_bits(byt1) + byte_bits(byt2) + old(self).bits().skip(16);
            assert forall|idx: int| 0 <= idx < self.bits().len() implies self.bits()[idx]
                == goal[idx] by {
                if idx < 8 {
                    assert(stream_bits(mid)[idx] == byte_bits(byt1)[idx]);
                    assert(stream_bits(self.stream@)[idx] == stream_bits(mid)[idx]);
                } else if idx < 16 {
                    assert(stream_bits(self.stream@)[idx] == byte_bits(byt2)[idx - 8]);
                } else {
                    assert(stream_bits(self.stream@)[idx] == stream_bits(mid)[idx]);
                    assert(stream_bits(mid)[idx] == stream_bits(pre)[idx]);
                }
            }
            assert(self.bits() =~= goal);
            if self.count > 0 {
                assert(self.stream@.len() > 2);
                assert(self.stream@.last() == pre.last());
            }
        }
    }
}

// ------------------------------------------------------------------
// Varint spec codec
// ------------------------------------------------------------------

/// The bit string of the unsigned base-128 varint code of `u`.
pub open spec fn uvarint_bits(u: u64) -> Seq<bool>
    decreases u,
{
    if u < 0x80 {
        byte_bits(u as u8)
    } else {
        byte_bits((u as u8) | 0x80) + uvarint_bits(u / 0x80)
    }
}

/// The zigzag map from signed to unsigned integers: double the magnitude,
/// complement if negative.
pub open spec fn zigzag(i: i64) -> u64 {
    if i < 0 {
        !((i as u64) << 1u64)
    } else {
        (i as u64) << 1u64
    }
}

/// The inverse zigzag map.
pub open spec fn unzigzag(ux: u64) -> i64 {
    if ux & 1 != 0 {
        !((ux >> 1u64) as i64)
    } else {
        (ux >> 1u64) as i64
    }
}

/// Law: the zigzag map round-trips every signed 64-bit integer.
pub proof fn lemma_zigzag_round_trip(i: i64)
    ensures
        unzigzag(zigzag(i)) == i,
{
    assert(unzigzag(zigzag(i)) == i) by (bit_vector);
}

// ------------------------------------------------------------------
// Reader
// ------------------------------------------------------------------

/// A forward-only cursor over an immutable byte buffer.  Up to 64
/// upcoming bits are buffered in a lookahead word; `valid` counts how
/// many of its low bits are still unconsumed.
#[derive(Debug)]
pub struct BstreamReader<'a> {
    stream: &'a Vec<u8>,
    stream_offset: usize,
    buffer: u64,
    valid: u8,
}

impl<'a> BstreamReader<'a> {
    /// All bits of the backing buffer.
    pub closed spec fn sbits(&self) -> Seq<bool> {
        stream_bits(self.stream@)
    }

    /// How many bits have been consumed so far.
    pub closed spec fn pos(&self) -> int {
        8 * self.stream_offset - self.valid
    }

    /// How many bits are buffered and ready for a fast read.
    pub closed spec fn buffered(&self) -> int {
        self.valid as int
    }

    pub closed spec fn wf(&self) -> bool {
        &&& self.valid <= 64
        &&& self.stream_offset <= self.stream@.len()
        &&& self.valid <= 8 * self.stream_offset
        &&& (forall|k: u64|
            k < self.valid ==> #[trigger] u64_bit(self.buffer, k) == self.sbits()[8
                * self.stream_offset - 1 - k])
    }

    /// The cursor sits inside the buffer, with the buffered bits ahead
    /// of it.
    pub proof fn lemma_bounds(&self)
        requires
            self.wf(),
        ensures
            0 <= self.pos(),
            0 <= self.buffered() <= 64,
            self.pos() + self.buffered() <= self.sbits().len(),
    {
    }

    pub fn new(stream: &'a Vec<u8>) -> (r: BstreamReader<'a>)
        ensures
            r.wf(),
            r.sbits() == stream_bits(stream@),
            r.pos() == 0,
            r.buffered() == 0,
    {
        BstreamReader { stream, stream_offset: 0, buffer: 0, valid: 0 }
    }

    /// Loads the next bytes of the stream into the lookahead word: a full
    /// word where plenty remains, otherwise just enough whole bytes to
    /// serve `nbits` or whatever is left.  Returns false at the end of
    /// the stream.
    #[verifier::loop_isolation(false)]
    fn load_next_buffer(&mut self, nbits: u8) -> (r: bool)
        requires
            old(self).wf(),
            old(self).buffered() == 0,
            nbits <= 64,
        ensures
            final(self).wf(),
            final(self).sbits() == old(self).sbits(),
            r == (old(self).pos() < old(self).sbits().len()),
            !r ==> *final(self) == *old(self),
            r ==> final(self).pos() == old(self).pos(),
            r ==> final(self).buffered() >= nbits || final(self).buffered() >= old(
                self,
            ).sbits().len() - old(self).pos(),
            r ==> final(self).buffered() >= 1,
    {
        if self.stream_offset >= self.stream.len() {
            return false;
        }
        let ghost off = self.stream_offset as int;
        let ghost l = self.stream@.len() as int;
        let n_bytes: usize = if self.stream.len() - self.stream_offset > 8 {
            8
        } else {
            let mut n: usize = (nbits / 8) as usize + 1;
            if n > self.stream.len() - self.stream_offset {
                n = self.stream.len() - self.stream_offset;
            }
            n
        };
        proof {
            assert(1 <= n_bytes <= 8);
            assert(off + n_bytes <= l);
        }
        let mut buffer: u64 = 0;
        let mut i: usize = 0;
        proof {
            assert forall|k: u64| k < 64 implies !u64_bit(0u64, k) by {
                assert((0u64 >> k) & 1 != 1) by (bit_vector);
            }
        }
        while i < n_bytes
            invariant
                i <= n_bytes,
                forall|k: u64|
                    k < 64 ==> #[trigger] u64_bit(buffer, k) == (8 * (n_bytes - i) <= k < 8
                        * n_bytes && self.sbits()[8 * off + 8 * n_bytes - 1 - k]),
            decreases n_bytes - i,
        {
            let byte = self.stream[self.stream_offset + i];
            let sh = (8 * (n_bytes - i - 1)) as u64;
            let ghost buffer_pre = buffer;
            buffer = buffer | ((byte as u64) << sh);
            proof {
                assert forall|k: u64| k < 64 implies #[trigger] u64_bit(buffer, k) == (8 * (n_bytes
                    - i - 1) <= k < 8 * n_bytes && self.sbits()[8 * off + 8 * n_bytes - 1
                    - k]) by {
                    lemma_u64_bit_or(buffer_pre, (byte as u64) << sh, k);
                    lemma_u64_bit_shl(byte as u64, sh, k);
                    if k >= sh {
                        lemma_u8_bit_in_u64(byte, (k - sh) as u64);
                        if k - sh < 8 {
                            let t = (k - sh) as int;
                            let m = 8 * (off + i) + (7 - t);
                            assert(m / 8 == off + i && m % 8 == 7 - t) by (nonlinear_arith)
                                requires
                                    m == 8 * (off + i) + (7 - t),
                                    0 <= t < 8,
                                    0 <= off + i,
                            ;
                            assert(self.sbits()[m] == u8_bit(self.stream@[off + i], (7 - m
                                % 8) as u64));
                            assert(m == 8 * off + 8 * n_bytes - 1 - k);
                        }
                    }
                }
            }
            i += 1;
        }
        self.buffer = buffer;
        self.stream_offset = self.stream_offset + n_bytes;
        self.valid = (8 * n_bytes) as u8;
        proof {
            assert forall|k: u64| k < self.valid implies #[trigger] u64_bit(self.buffer, k)
                == self.sbits()[8 * self.stream_offset - 1 - k] by {
                assert(u64_bit(buffer, k) == (8 * (n_bytes - n_bytes) <= k < 8 * n_bytes
                    && self.sbits()[8 * off + 8 * n_bytes - 1 - k]));
            }
            if n_bytes < 8 {
                assert(8 * (nbits as int / 8) + nbits as int % 8 == nbits as int) by (nonlinear_arith);
            }
        }
        true
    }

    /// Reads one bit, served from the lookahead word alone; fails
    /// without consuming anything when no bits are buffered, even if the
    /// stream has more.
    pub fn read_bit_fast(&mut self) -> (r: Result<bool, Error>)
        requires
            old(self).wf(),
        ensures
            final(self).wf(),
            final(self).sbits() == old(self).sbits(),
            old(self).buffered() == 0 ==> r is Err && *final(self) == *old(self),
            old(self).buffered() > 0 ==> {
                &&& r == Ok::<bool, Error>(old(self).sbits()[old(self).pos()])
                &&& final(self).pos() == old(self).pos() + 1
                &&& final(self).buffered() == old(self).buffered() - 1
            },
    {
        if self.valid == 0 {
            return Err(Error::EndOfStream);
        }
        self.valid = self.valid - 1;
        let bitmask = 1u64 << self.valid;
        let bit = (self.buffer & bitmask) != 0;
        proof {
            let b = self.buffer;
            let v = self.valid as u64;
            assert(((b & (1u64 << v)) != 0) == ((b >> v) & 1 == 1)) by (bit_vector);
            assert(u64_bit(old(self).buffer, v) == old(self).sbits()[8 * old(self).stream_offset
                - 1 - v]);
        }
        Ok(bit)
    }

    /// Reads one bit, refilling the lookahead word on demand; fails
    /// exactly at the end of the stream.
    pub fn read_bit(&mut self) -> (r: Result<bool, Error>)
        requires
            old(self).wf(),
        ensures
            final(self).wf(),
            final(self).sbits() == old(self).sbits(),
            r is Ok <==> old(self).pos() < old(self).sbits().len(),
            r is Ok ==> r == Ok::<bool, Error>(old(self).sbits()[old(self).pos()])
                && final(self).pos() == old(self).pos() + 1,
            r is Err ==> *final(self) == *old(self),
    {
        if self.valid == 0 {
            if !self.load_next_buffer(1) {
                return Err(Error::EndOfStream);
            }
        }
        self.read_bit_fast()
    }

    /// Reads `nbits` bits as an unsigned value, served from the
    /// lookahead word alone; fails without consuming anything when too
    /// few bits are buffered.
    pub fn read_bits_fast(&mut self, nbits: u8) -> (r: Result<u64, Error>)
        requires
            old(self).wf(),
            1 <= nbits <= 64,
        ensures
            final(self).wf(),
            final(self).sbits() == old(self).sbits(),
            nbits > old(self).buffered() ==> r is Err && *final(self) == *old(self),
            nbits <= old(self).buffered() ==> {
                &&& r is Ok
                &&& final(self).pos() == old(self).pos() + nbits
                &&& final(self).buffered() == old(self).buffered() - nbits
                &&& bits_of(r->Ok_0, nbits as int) == old(self).sbits().subrange(
                    old(self).pos(),
                    old(self).pos() + nbits,
                )
                &&& r->Ok_0 as nat == bits_val(
                    old(self).sbits().subrange(old(self).pos(), old(self).pos() + nbits),
                )
                &&& (r->Ok_0 as nat) < pow2(nbits as nat)
            },
    {
        if nbits > self.valid {
            return Err(Error::EndOfStream);
        }
        self.valid = self.valid - nbits;
        let bitmask = u64::MAX >> ((64 - nbits) as u64);
        let r = (self.buffer >> self.valid) & bitmask;
        proof {
            let pre = *old(self);
            pre.lemma_read_window(old(self).pos(), r, nbits, self.valid as u64);
        }
        Ok(r)
    }

    /// The value extracted by shifting the lookahead word down by `low`
    /// and masking to `nbits` spells the `nbits` stream bits that end
    /// just above bit `low` of the word.
    proof fn lemma_read_window(&self, p: int, r: u64, nbits: u8, low: u64)
        requires
            self.wf(),
            1 <= nbits <= 64,
            low + nbits <= self.valid,
            p == 8 * self.stream_offset - low - nbits,
            r == (self.buffer >> low) & mask64(nbits as u64),
        ensures
            bits_of(r, nbits as int) == self.sbits().subrange(p, p + nbits),
            r as nat == bits_val(self.sbits().subrange(p, p + nbits)),
            (r as nat) < pow2(nbits as nat),
    {
        let s = self.sbits();
        let sub = s.subrange(p, p + nbits as int);
        assert forall|j: int| 0 <= j < nbits as int implies #[trigger] bits_of(r, nbits as int)[j]
            == sub[j] by {
            let k = (nbits - 1 - j) as u64;
            lemma_u64_bit_mask(self.buffer >> low, nbits as u64, k);
            lemma_u64_bit_shr(self.buffer, low, k);
            assert(u64_bit(self.buffer, (low + k) as u64) == s[8 * self.stream_offset - 1 - (low
                + k)]);
        }
        assert(bits_of(r, nbits as int) =~= sub);
        assert forall|k: u64| nbits as u64 <= k < 64 implies !u64_bit(r, k) by {
            lemma_u64_bit_mask(self.buffer >> low, nbits as u64, k);
        }
        lemma_u64_bound_from_bits(r, nbits as u64);
        lemma_bits_of_val(r, nbits as int);
        lemma_small_mod(r as nat, pow2(nbits as nat));
    }

    /// Reads `nbits <= 64` bits as an unsigned value, refilling the
    /// lookahead word on demand and splicing across its boundary; fails
    /// exactly when fewer than `nbits` bits remain in the whole stream.
    pub fn read_bits(&mut self, nbits: u8) -> (r: Result<u64, Error>)
        requires
            old(self).wf(),
            1 <= nbits <= 64,
        ensures
            final(self).wf(),
            final(self).sbits() == old(self).sbits(),
            r is Ok <==> old(self).pos() + nbits <= old(self).sbits().len(),
            r is Ok ==> {
                &&& final(self).pos() == old(self).pos() + nbits
                &&& bits_of(r->Ok_0, nbits as int) == old(self).sbits().subrange(
                    old(self).pos(),
                    old(self).pos() + nbits,
                )
                &&& r->Ok_0 as nat == bits_val(
                    old(self).sbits().subrange(old(self).pos(), old(self).pos() + nbits),
                )
                &&& (r->Ok_0 as nat) < pow2(nbits as nat)
            },
            final(self).pos() >= old(self).pos(),
    {
        if self.valid == 0 {
            if !self.load_next_buffer(nbits) {
                return Err(Error::EndOfStream);
            }
        }
        if nbits <= self.valid {
            return self.read_bits_fast(nbits);
        }
        // Drain all buffered bits, then take the rest from the next load.
        let have = self.valid;
        let nrem = nbits - have;
        let bitmask = u64::MAX >> ((64 - have) as u64);
        let hi = self.buffer & bitmask;
        self.valid = 0;
        let ghost p0 = old(self).pos();
        let ghost s = old(self).sbits();
        let ghost drained = *self;
        proof {
            let mut pre = drained;
            pre.valid = have;
            assert(pre.wf());
            let bb = pre.buffer;
            assert(bb >> 0u64 == bb) by (bit_vector);
            pre.lemma_read_window(p0, hi, have, 0);
        }
        if !self.load_next_buffer(nrem) {
            return Err(Error::EndOfStream);
        }
        if self.valid < nrem {
            // The stream ends inside this read.
            return Err(Error::EndOfStream);
        }
        let ghost loaded = *self;
        self.valid = self.valid - nrem;
        let bitmask2 = u64::MAX >> ((64 - nrem) as u64);
        let lo = (self.buffer >> self.valid) & bitmask2;
        let v = (hi << nrem) | lo;
        proof {
            loaded.lemma_read_window(p0 + have as int, lo, nrem, self.valid as u64);
            let sub = s.subrange(p0, p0 + nbits as int);
            let sub_hi = s.subrange(p0, p0 + have as int);
            let sub_lo = s.subrange(p0 + have as int, p0 + nbits as int);
            assert forall|j: int| 0 <= j < nbits as int implies #[trigger] bits_of(
                v,
                nbits as int,
            )[j] == sub[j] by {
                let k = (nbits - 1 - j) as u64;
                lemma_u64_bit_or(hi << (nrem as u64), lo, k);
                lemma_u64_bit_shl(hi, nrem as u64, k);
                if j < have as int {
                    assert(bits_of(hi, have as int)[j] == sub_hi[j]);
                    assert(!u64_bit(lo, k)) by {
                        lemma_u64_bit_mask(loaded.buffer >> (self.valid as u64), nrem as u64, k);
                    }
                    assert(u64_bit(hi, (k - nrem) as u64) == bits_of(hi, have as int)[j]);
                } else {
                    assert(bits_of(lo, nrem as int)[j - have as int] == sub_lo[j - have as int]);
                }
            }
            assert(bits_of(v, nbits as int) =~= sub);
            assert forall|k: u64| nbits as u64 <= k < 64 implies !u64_bit(v, k) by {
                lemma_u64_bit_or(hi << (nrem as u64), lo, k);
                lemma_u64_bit_shl(hi, nrem as u64, k);
                lemma_u64_bit_mask(loaded.buffer >> (self.valid as u64), nrem as u64, k);
                if k >= nrem {
                    let bb = drained.buffer;
                    assert(bb >> 0u64 == bb) by (bit_vector);
                    lemma_u64_bit_mask(drained.buffer >> 0u64, have as u64, (k - nrem) as u64);
                }
            }
            lemma_u64_bound_from_bits(v, nbits as u64);
            lemma_bits_of_val(v, nbits as int);
            lemma_small_mod(v as nat, pow2(nbits as nat));
        }
        Ok(v)
    }

    /// Reads eight bits as one byte.
    pub fn read_byte(&mut self) -> (r: Result<u8, Error>)
        requires
            old(self).wf(),
        ensures
            final(self).wf(),
            final(self).sbits() == old(self).sbits(),
            r is Ok <==> old(self).pos() + 8 <= old(self).sbits().len(),
            r is Ok ==> {
                &&& final(self).pos() == old(self).pos() + 8
                &&& byte_bits(r->Ok_0) == old(self).sbits().subrange(
                    old(self).pos(),
                    old(self).pos() + 8,
                )
                &&& r->Ok_0 as nat == bits_val(
                    old(self).sbits().subrange(old(self).pos(), old(self).pos() + 8),
                )
            },
            final(self).pos() >= old(self).pos(),
    {
        match self.read_bits(8) {
            Ok(bits) => {
                proof {
                    lemma2_to64();
                    assert(bits < 256 ==> ((bits as u8) as u64) == bits) by (bit_vector);
                    lemma_byte_bits_as_bits_of(bits as u8);
                }
                Ok(bits as u8)
            },
            Err(e) => Err(e),
        }
    }

    /// Reads an unsigned base-128 varint, mirroring `uvarint_dec`: up to
    /// ten 7-bit groups; on the overflow encodings it yields 0.
    #[verifier::loop_isolation(false)]
    pub fn read_uvarint(&mut self) -> (r: Result<u64, Error>)
        requires
            old(self).wf(),
        ensures
            final(self).wf(),
            final(self).sbits() == old(self).sbits(),
            match uvarint_dec(old(self).sbits(), old(self).pos()) {
                Some(vp) => r is Ok && r->Ok_0 == vp.0 && final(self).pos() == vp.1,
                None => r is Err,
            },
            final(self).pos() >= old(self).pos(),
    {
        let mut x: u64 = 0;
        let mut s: usize = 0;
        let mut i: usize = 0;
        loop
            invariant
                self.wf(),
                self.sbits() == old(self).sbits(),
                i <= 10,
                s == 7 * i,
                self.pos() >= old(self).pos(),
                uvarint_dec_at(self.sbits(), self.pos(), i as int, x, s as u64) == uvarint_dec(
                    old(self).sbits(),
                    old(self).pos(),
                ),
            decreases 11 - i,
        {
            match self.read_byte() {
                Ok(byte) => {
                    proof {
                        assert(byte as u64 == group_val(self.sbits(), self.pos() - 8));
                    }
                    if i == MAX_VARINT_LEN64 {
                        // more groups than any 64-bit value needs: overflow
                        return Ok(0);
                    }
                    if byte < 0x80 {
                        if i == MAX_VARINT_LEN64 - 1 && byte > 1 {
                            // the tenth group may only carry the top bit
                            return Ok(0);
                        }
                        return Ok(x | ((byte as u64) << (s as u64)));
                    }
                    proof {
                        assert((((byte & 0x7f) as u64) << (s as u64)) == (((byte as u64) & 0x7f)
                            << (s as u64))) by (bit_vector);
                    }
                    x = x | (((byte & 0x7f) as u64) << (s as u64));
                    s += 7;
                    i += 1;
                },
                Err(e) => {
                    return Err(e);
                },
            }
        }
    }

    /// Reads a signed varint: an unsigned varint followed by the inverse
    /// zigzag map.
    pub fn read_varint(&mut self) -> (r: Result<i64, Error>)
        requires
            old(self).wf(),
        ensures
            final(self).wf(),
            final(self).sbits() == old(self).sbits(),
            match uvarint_dec(old(self).sbits(), old(self).pos()) {
                Some(vp) => r is Ok && r->Ok_0 == unzigzag(vp.0) && final(self).pos() == vp.1,
                None => r is Err,
            },
            final(self).pos() >= old(self).pos(),
    {
        let ux = match self.read_uvarint() {
            Ok(ux) => ux,
            Err(e) => {
                return Err(e);
            },
        };
        let mut x = (ux >> 1) as i64;
        if ux & 1 != 0 {
            x = !x;
        }
        Ok(x)
    }
}

// ------------------------------------------------------------------
// Varint spec decoder and the round-trip laws
// ------------------------------------------------------------------

/// The value of the eight bits starting at `p`.
pub open spec fn group_val(s: Seq<bool>, p: int) -> u64 {
    bits_val(s.subrange(p, p + 8)) as u64
}

/// One state of the unsigned-varint decode loop: `i` groups consumed so
/// far into accumulator `x`, the next group to land at bit `sh`.
/// `None` means the stream ended inside the varint; the overflow
/// encodings decode to 0.
pub open spec fn uvarint_dec_at(s: Seq<bool>, p: int, i: int, x: u64, sh: u64) -> Option<(u64, int)>
    decreases 10 - i,
{
    if p < 0 || p + 8 > s.len() {
        None
    } else if i >= 10 {
        Some((0, p + 8))
    } else {
        let byte = group_val(s, p);
        if byte < 0x80 {
            if i == 9 && byte > 1 {
                Some((0, p + 8))
            } else {
                Some((x | (byte << sh), p + 8))
            }
        } else {
            uvarint_dec_at(s, p + 8, i + 1, x | ((byte & 0x7f) << sh), (sh + 7) as u64)
        }
    }
}

/// The unsigned varint starting at bit `p`: its value and the position
/// just past it.
pub open spec fn uvarint_dec(s: Seq<bool>, p: int) -> Option<(u64, int)> {
    uvarint_dec_at(s, p, 0, 0, 0)
}

/// Eight stream bits that spell `byte_bits(b)` group-decode to `b`.
proof fn lemma_byte_group(s: Seq<bool>, p: int, b: u8)
    requires
        0 <= p,
        p + 8 <= s.len(),
        s.subrange(p, p + 8) == byte_bits(b),
    ensures
        group_val(s, p) == b as u64,
{
    lemma_byte_bits_as_bits_of(b);
    lemma_bits_of_val(b as u64, 8);
    lemma2_to64();
    lemma_small_mod(b as nat, pow2(8));
}

/// The one-step composition fact behind the varint round trip: the next
/// 7-bit group lands at `sh` and the remainder above it.
proof fn lemma_uvarint_step(x: u64, u: u64, sh: u64)
    by (bit_vector)
    requires
        sh <= 56,
    ensures
        (x | ((((((u as u8) | 0x80) as u64)) & 0x7f) << sh)) | ((u >> 7u64) << ((sh + 7) as u64))
            == x | (u << sh),
        (((u as u8) | 0x80) as u64) >= 0x80,
        (((u as u8) | 0x80) as u64) & 0x7f == ((u as u8) & 0x7f) as u64,
{
}

proof fn lemma_uvarint_dec_gen(s: Seq<bool>, p: int, u: u64, i: int, x: u64, sh: u64)
    requires
        0 <= p,
        0 <= i <= 9,
        sh == 7 * i,
        (u as nat) < pow2((64 - 7 * i) as nat),
        p + uvarint_bits(u).len() <= s.len(),
        s.subrange(p, p + uvarint_bits(u).len() as int) == uvarint_bits(u),
    ensures
        uvarint_dec_at(s, p, i, x, sh) == Some::<(u64, int)>(
            (x | (u << sh), p + uvarint_bits(u).len() as int),
        ),
    decreases u,
{
    if u < 0x80 {
        assert(uvarint_bits(u) == byte_bits(u as u8));
        lemma_byte_group(s, p, u as u8);
        assert(((u as u8) as u64) == u) by (bit_vector)
            requires
                u < 0x80,
        ;
        if i == 9 {
            lemma2_to64();
            assert(pow2(1) == 2);
            assert(u <= 1);
        }
    } else {
        let b0 = (u as u8) | 0x80;
        let rest = uvarint_bits(u / 0x80);
        assert(uvarint_bits(u) == byte_bits(b0) + rest);
        let e = uvarint_bits(u);
        let le = e.len() as int;
        assert(s.subrange(p, p + 8) =~= byte_bits(b0)) by {
            assert forall|j: int| 0 <= j < 8 implies s.subrange(p, p + 8)[j] == byte_bits(b0)[j] by {
                assert(s.subrange(p, p + le)[j] == e[j]);
            }
        }
        assert(s.subrange(p + 8, p + le) =~= rest) by {
            assert forall|j: int| 0 <= j < le - 8 implies s.subrange(p + 8, p + le)[j]
                == rest[j] by {
                assert(s.subrange(p, p + le)[j + 8] == e[j + 8]);
            }
        }
        lemma_byte_group(s, p, b0);
        assert(i <= 8) by {
            if i == 9 {
                lemma2_to64();
                assert(pow2(1) == 2);
            }
        }
        lemma_uvarint_step(x, u, sh);
        // the remaining groups fit in seven fewer bits
        assert((u as nat) / 128 < pow2((64 - 7 * (i + 1)) as nat)) by {
            lemma_pow2_adds(7, (64 - 7 * (i + 1)) as nat);
            lemma2_to64();
            vstd::arithmetic::div_mod::lemma_multiply_divide_lt(
                u as int,
                128,
                pow2((64 - 7 * (i + 1)) as nat) as int,
            );
        }
        assert(u / 0x80 == u >> 7u64) by {
            vstd::bits::lemma_u64_shr_is_div(u, 7);
            lemma2_to64();
        }
        lemma_uvarint_dec_gen(
            s,
            p + 8,
            u / 0x80,
            i + 1,
            x | (((b0 as u64) & 0x7f) << sh),
            (sh + 7) as u64,
        );
    }
}

/// Law: an unsigned varint round-trips.  Wherever the bits that
/// `write_uvarint(u)` appends sit in a stream, `read_uvarint` started
/// there returns exactly `u` and stops exactly past them.
pub proof fn lemma_uvarint_round_trip(s: Seq<bool>, p: int, u: u64)
    requires
        0 <= p,
        p + uvarint_bits(u).len() <= s.len(),
        s.subrange(p, p + uvarint_bits(u).len() as int) == uvarint_bits(u),
    ensures
        uvarint_dec(s, p) == Some::<(u64, int)>((u, p + uvarint_bits(u).len() as int)),
{
    lemma2_to64_rest();
    lemma_uvarint_dec_gen(s, p, u, 0, 0, 0);
    assert(0u64 | (u << 0u64) == u) by (bit_vector);
}

/// Law: a signed varint round-trips.  Wherever the bits that
/// `write_varint(i)` appends sit in a stream, `read_varint` started
/// there returns exactly `i` and stops exactly past them.
pub proof fn lemma_varint_round_trip(s: Seq<bool>, p: int, i: i64)
    requires
        0 <= p,
        p + uvarint_bits(zigzag(i)).len() <= s.len(),
        s.subrange(p, p + uvarint_bits(zigzag(i)).len() as int) == uvarint_bits(zigzag(i)),
    ensures
        uvarint_dec(s, p) == Some::<(u64, int)>(
            (zigzag(i), p + uvarint_bits(zigzag(i)).len() as int),
        ),
        unzigzag(zigzag(i)) == i,
{
    lemma_uvarint_round_trip(s, p, zigzag(i));
    lemma_zigzag_round_trip(i);
}

/// Law: a `write_bits`/`read_bits` round trip returns the written value
/// truncated to the written width: the bit string that `write_bits(u, n)`
/// appends spells `u % 2^n`, which is what `read_bits(n)` returns over it.
pub proof fn lemma_bits_round_trip(u: u64, n: int)
    requires
        1 <= n <= 64,
    ensures
        bits_val(bits_of(u, n)) == (u as nat) % pow2(n as nat),
        (u as nat) < pow2(n as nat) ==> bits_val(bits_of(u, n)) == u,
{
    lemma_bits_of_val(u, n);
    if (u as nat) < pow2(n as nat) {
        lemma_small_mod(u as nat, pow2(n as nat));
    }
}

} // verus!
