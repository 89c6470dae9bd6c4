//! The XOR chunk codec: delta-of-delta timestamps and XOR-window values
//! packed behind a two-byte big-endian sample counter.
//!
//! `chunk_bits` is the specification of the whole byte format: a chunk
//! holding `samples` spells exactly `chunk_bits(samples)` followed by
//! zero padding to the byte boundary.  The appender's and iterator's
//! contracts are both stated against it.
use vstd::prelude::*;
use crate::bitseq::{
    u8_bit, u64_bit, byte_bits, stream_bits, bits_of, bits_val, lemma_u64_bit_shr,
    lemma_u64_bit_shl, lemma_byte_bits_as_bits_of, lemma_bits_of_val, lemma_u64_eq_by_bits,
    lemma_u64_bound_from_bits,
};
use crate::bstream::{
    Bstream, BstreamReader, Error, uvarint_bits, zigzag, lemma_uvarint_round_trip,
    lemma_zigzag_round_trip, free_after_partial, free_after_bytes, free_after_write,
};
use vstd::std_specs::bits::{
    u64_leading_zeros, u64_trailing_zeros, axiom_u64_leading_zeros, axiom_u64_trailing_zeros,
};
use vstd::wrapping::{u64_specs, i64_specs};
use vstd::arithmetic::power2::{pow2, lemma2_to64, lemma2_to64_rest, lemma_pow2_adds};
use vstd::arithmetic::div_mod::{lemma_small_mod, lemma_fundamental_div_mod_converse_mod};

verus! {

/// The sentinel value of the `leading` field while no XOR window has
/// been established yet.
pub const WINDOW_UNSET: u8 = 0xff;

/// The state an encoder carries between samples, and that a decoder
/// reconstructs: the previous timestamp, the previous value's bit
/// pattern, the previous timestamp delta, and the zero-bit window of the
/// last XOR result (`leading == WINDOW_UNSET` while none exists).
pub struct EncState {
    pub t: i64,
    pub v: u64,
    pub t_delta: u64,
    pub leading: u8,
    pub trailing: u8,
}

/// The state of a fresh, empty chunk.
pub open spec fn init_state() -> EncState {
    EncState { t: i64::MIN, v: 0, t_delta: 0, leading: WINDOW_UNSET, trailing: 0 }
}

/// The timestamp delta, a wrapping 64-bit quantity.
pub open spec fn ts_delta(t: i64, prev: i64) -> u64 {
    i64_specs::wrapping_sub(t, prev) as u64
}

/// The delta-of-delta, a wrapping subtraction reinterpreted as signed.
pub open spec fn dod_of(t_delta: u64, prev_delta: u64) -> i64 {
    u64_specs::wrapping_sub(t_delta, prev_delta) as i64
}

/// Whether `x` fits the `nbits`-wide field: asymmetric, one extra
/// positive value fits.
pub open spec fn in_bit_range(x: i64, nbits: u8) -> bool {
    -((1i64 << ((nbits - 1) as u64)) - 1) <= x && x <= (1i64 << ((nbits - 1) as u64))
}

/// The self-describing delta-of-delta code: a unary-style prefix selects
/// the payload width.
pub open spec fn dod_bits(dod: i64) -> Seq<bool> {
    if dod == 0 {
        seq![false]
    } else if in_bit_range(dod, 14) {
        bits_of(0b10, 2) + bits_of(dod as u64, 14)
    } else if in_bit_range(dod, 17) {
        bits_of(0b110, 3) + bits_of(dod as u64, 17)
    } else if in_bit_range(dod, 20) {
        bits_of(0b1110, 4) + bits_of(dod as u64, 20)
    } else {
        bits_of(0b1111, 4) + bits_of(dod as u64, 64)
    }
}

/// The leading-zero count clamped to 31: the field holding it is five
/// bits wide.
pub open spec fn clamp_leading(x: u64) -> u8 {
    if u64_leading_zeros(x) >= 32 {
        31
    } else {
        u64_leading_zeros(x) as u8
    }
}

/// The XOR value code of `v` against previous value `prev_v` under the
/// stored window `(l0, t0)`: unchanged, window reuse, or a fresh window.
pub open spec fn xor_bits(prev_v: u64, l0: u8, t0: u8, v: u64) -> Seq<bool> {
    let x = v ^ prev_v;
    if x == 0 {
        seq![false]
    } else {
        let lead = clamp_leading(x);
        let trail = u64_trailing_zeros(x) as u8;
        if l0 != WINDOW_UNSET && lead >= l0 && trail >= t0 {
            seq![true, false] + bits_of(x >> (t0 as u64), 64 - l0 - t0)
        } else {
            seq![true, true] + bits_of(lead as u64, 5) + bits_of((64 - lead - trail) as u64, 6)
                + bits_of(x >> (trail as u64), 64 - lead - trail)
        }
    }
}

/// The window stored after encoding `v`.
pub open spec fn xor_window(prev_v: u64, l0: u8, t0: u8, v: u64) -> (u8, u8) {
    let x = v ^ prev_v;
    if x == 0 {
        (l0, t0)
    } else {
        let lead = clamp_leading(x);
        let trail = u64_trailing_zeros(x) as u8;
        if l0 != WINDOW_UNSET && lead >= l0 && trail >= t0 {
            (l0, t0)
        } else {
            (lead, trail)
        }
    }
}

/// The bits that appending sample number `n` (zero-based) appends to the
/// body when the encoder state is `st`.
pub open spec fn sample_bits(st: EncState, n: int, t: i64, v: u64) -> Seq<bool> {
    if n == 0 {
        uvarint_bits(zigzag(t)) + bits_of(v, 64)
    } else if n == 1 {
        uvarint_bits(ts_delta(t, st.t)) + xor_bits(st.v, st.leading, st.trailing, v)
    } else {
        dod_bits(dod_of(ts_delta(t, st.t), st.t_delta)) + xor_bits(st.v, st.leading, st.trailing, v)
    }
}

/// The encoder state after appending sample number `n`.
pub open spec fn sample_next(st: EncState, n: int, t: i64, v: u64) -> EncState {
    let w = if n == 0 {
        (st.leading, st.trailing)
    } else {
        xor_window(st.v, st.leading, st.trailing, v)
    };
    EncState {
        t,
        v,
        t_delta: if n == 0 {
            0
        } else {
            ts_delta(t, st.t)
        },
        leading: w.0,
        trailing: w.1,
    }
}

/// The encoder state after appending all of `samples` from scratch.
pub open spec fn enc_state(samples: Seq<(i64, u64)>) -> EncState
    decreases samples.len(),
{
    if samples.len() == 0 {
        init_state()
    } else {
        sample_next(
            enc_state(samples.drop_last()),
            samples.len() - 1,
            samples.last().0,
            samples.last().1,
        )
    }
}

/// The packed body: each sample's code, in order.
pub open spec fn chunk_body_bits(samples: Seq<(i64, u64)>) -> Seq<bool>
    decreases samples.len(),
{
    if samples.len() == 0 {
        Seq::empty()
    } else {
        chunk_body_bits(samples.drop_last()) + sample_bits(
            enc_state(samples.drop_last()),
            samples.len() - 1,
            samples.last().0,
            samples.last().1,
        )
    }
}

/// The whole chunk: a 16-bit big-endian sample count, then the body.
pub open spec fn chunk_bits(samples: Seq<(i64, u64)>) -> Seq<bool> {
    bits_of(samples.len() as u64, 16) + chunk_body_bits(samples)
}

/// The stream's free-bit count after one XOR value code.
pub open spec fn free_after_xor(f: nat, prev_v: u64, l0: u8, t0: u8, v: u64) -> nat {
    let x = v ^ prev_v;
    if x == 0 {
        free_after_partial(f, 1)
    } else {
        let lead = clamp_leading(x);
        let trail = u64_trailing_zeros(x) as u8;
        if l0 != WINDOW_UNSET && lead >= l0 && trail >= t0 {
            free_after_write(free_after_partial(free_after_partial(f, 1), 1), 64 - l0 - t0)
        } else {
            free_after_write(
                free_after_write(
                    free_after_write(free_after_partial(free_after_partial(f, 1), 1), 5),
                    6,
                ),
                64 - lead - trail,
            )
        }
    }
}

/// The stream's free-bit count after one delta-of-delta code.
pub open spec fn free_after_dod(f: nat, dod: i64) -> nat {
    if dod == 0 {
        free_after_partial(f, 1)
    } else if in_bit_range(dod, 14) {
        free_after_write(free_after_write(f, 2), 14)
    } else if in_bit_range(dod, 17) {
        free_after_write(free_after_write(f, 3), 17)
    } else if in_bit_range(dod, 20) {
        free_after_write(free_after_write(f, 4), 20)
    } else {
        free_after_write(free_after_write(f, 4), 64)
    }
}

/// The stream's free-bit count after one whole sample code.
pub open spec fn free_after_sample(f: nat, st: EncState, n: int, t: i64, v: u64) -> nat {
    if n == 0 {
        free_after_write(free_after_bytes(f), 64)
    } else if n == 1 {
        free_after_xor(free_after_bytes(f), st.v, st.leading, st.trailing, v)
    } else {
        free_after_xor(
            free_after_dod(f, dod_of(ts_delta(t, st.t), st.t_delta)),
            st.v,
            st.leading,
            st.trailing,
            v,
        )
    }
}

/// The free-bit count of a chunk holding `samples`: together with
/// `chunk_bits` this pins the byte buffer completely, padding byte
/// included, so the bytes are a function of the samples alone.
pub open spec fn chunk_free(samples: Seq<(i64, u64)>) -> nat
    decreases samples.len(),
{
    if samples.len() == 0 {
        0
    } else {
        free_after_sample(
            chunk_free(samples.drop_last()),
            enc_state(samples.drop_last()),
            samples.len() - 1,
            samples.last().0,
            samples.last().1,
        )
    }
}

/// The window invariant every reachable state satisfies: a stored window
/// leaves at least one significant bit.
pub open spec fn window_inv(leading: u8, trailing: u8) -> bool {
    if leading == WINDOW_UNSET {
        trailing == 0
    } else {
        leading <= 31 && leading + trailing <= 63
    }
}

// ------------------------------------------------------------------
// Facts about leading/trailing zero counts and the 16-bit header.
// ------------------------------------------------------------------

/// A nonzero word has complementary zero runs that leave at least one
/// significant bit between them.
proof fn lemma_lz_tz(x: u64)
    requires
        x != 0,
    ensures
        0 <= u64_leading_zeros(x) <= 63,
        u64_trailing_zeros(x) < 64,
        u64_leading_zeros(x) + u64_trailing_zeros(x) <= 63,
        forall|j: u64| 64 - u64_leading_zeros(x) <= j < 64 ==> !u64_bit(x, j),
        forall|j: u64| j < u64_trailing_zeros(x) ==> !u64_bit(x, j),
{
    axiom_u64_leading_zeros(x);
    axiom_u64_trailing_zeros(x);
    let lz = u64_leading_zeros(x);
    let tz = u64_trailing_zeros(x) as u64;
    assert((x >> tz) & 1u64 == 1u64);
    if tz as int + lz > 63 {
        assert(64 - lz <= tz < 64);
        assert((x >> tz) & 1u64 == 0u64);
    }
    assert forall|j: u64| 64 - u64_leading_zeros(x) <= j < 64 implies !u64_bit(x, j) by {
        assert((x >> j) & 1u64 == 0u64);
    }
    assert forall|j: u64| j < u64_trailing_zeros(x) implies !u64_bit(x, j) by {
        assert((x >> j) & 1u64 == 0u64);
    }
}

/// Shifting out `trail` trailing zeros keeps every significant bit and
/// fits the window's width.
proof fn lemma_xor_shift(x: u64, lead: u8, trail: u8)
    requires
        x != 0,
        lead <= u64_leading_zeros(x),
        trail <= u64_trailing_zeros(x),
        lead + trail <= 63,
    ensures
        ((x >> (trail as u64)) as nat) < pow2((64 - lead - trail) as nat),
        (x >> (trail as u64)) << (trail as u64) == x,
{
    lemma_lz_tz(x);
    let t = trail as u64;
    let w = (64 - lead - trail) as u64;
    assert forall|k: u64| w <= k < 64 implies !u64_bit(x >> t, k) by {
        lemma_u64_bit_shr(x, t, k);
        if t + k < 64 {
            assert(64 - u64_leading_zeros(x) <= t + k < 64);
        }
    }
    lemma_u64_bound_from_bits(x >> t, w);
    assert forall|k: u64| k < 64 implies u64_bit((x >> t) << t, k) == u64_bit(x, k) by {
        lemma_u64_bit_shl(x >> t, t, k);
        if k >= t {
            lemma_u64_bit_shr(x, t, (k - t) as u64);
        }
    }
    lemma_u64_eq_by_bits((x >> t) << t, x);
}

/// The two header bytes compose back into the sample count.
proof fn lemma_be16_compose(n: u64, b0: u8, b1: u8)
    by (bit_vector)
    requires
        n < 0x10000,
        b0 as u64 == (n >> 8u64) % 0x100,
        b1 as u64 == n % 0x100,
    ensures
        (((b0 as u16) << 8u16) | (b1 as u16)) as u64 == n,
{
}

proof fn lemma_u16_bytes(n: u16, k: u64)
    by (bit_vector)
    requires
        k < 8,
    ensures
        u8_bit((n >> 8u16) as u8, k) == u64_bit(n as u64, (k + 8) as u64),
        u8_bit(n as u8, k) == u64_bit(n as u64, k),
{
}

/// Splitting the 16-bit header string at the byte boundary.
proof fn lemma_be16_decompose(n: u16)
    ensures
        byte_bits((n >> 8u16) as u8) + byte_bits(n as u8) == bits_of(n as u64, 16),
{
    let lhs = byte_bits((n >> 8u16) as u8) + byte_bits(n as u8);
    assert forall|i: int| 0 <= i < 16 implies lhs[i] == bits_of(n as u64, 16)[i] by {
        if i < 8 {
            lemma_u16_bytes(n, (7 - i) as u64);
        } else {
            lemma_u16_bytes(n, (15 - i) as u64);
        }
    }
    assert(lhs =~= bits_of(n as u64, 16));
}

/// Reads the sample count out of a well-formed chunk's first two bytes.
proof fn lemma_header_value(b: &Bstream, samples: Seq<(i64, u64)>)
    requires
        b.wf(),
        b.bits() == chunk_bits(samples),
        samples.len() <= 0xffff,
    ensures
        b.raw().len() >= 2,
        b.bits().len() >= 16,
        (((b.raw()[0] as u16) << 8u16) | (b.raw()[1] as u16)) as int == samples.len() as int,
{
    let n64 = samples.len() as u64;
    b.lemma_raw_bits();
    let raw = b.raw();
    let sb = stream_bits(raw);
    assert(b.bits().len() >= 16);
    assert(sb.len() >= 16);
    assert(raw.len() >= 2);
    let b0 = raw[0];
    let b1 = raw[1];
    assert forall|i: int| 0 <= i < 8 implies byte_bits(b0)[i] == bits_of(n64 >> 8u64, 8)[i] by {
        assert(i / 8 == 0 && i % 8 == i) by (nonlinear_arith)
            requires
                0 <= i < 8,
        ;
        assert(sb[i] == u8_bit(b0, (7 - i) as u64));
        assert(sb[i] == b.bits()[i]);
        assert(b.bits()[i] == bits_of(n64, 16)[i]);
        lemma_u64_bit_shr(n64, 8, (7 - i) as u64);
    }
    assert(byte_bits(b0) =~= bits_of(n64 >> 8u64, 8));
    assert forall|i: int| 0 <= i < 8 implies byte_bits(b1)[i] == bits_of(n64, 8)[i] by {
        let m = 8 + i;
        assert(m / 8 == 1 && m % 8 == i) by (nonlinear_arith)
            requires
                0 <= i < 8,
                m == 8 + i,
        ;
        assert(sb[m] == u8_bit(b1, (7 - i) as u64));
        assert(sb[m] == b.bits()[m]);
        assert(b.bits()[m] == bits_of(n64, 16)[m]);
    }
    assert(byte_bits(b1) =~= bits_of(n64, 8));
    lemma_byte_bits_as_bits_of(b0);
    lemma_byte_bits_as_bits_of(b1);
    lemma_bits_of_val(b0 as u64, 8);
    lemma_bits_of_val(b1 as u64, 8);
    lemma_bits_of_val(n64 >> 8u64, 8);
    lemma_bits_of_val(n64, 8);
    lemma2_to64();
    lemma_small_mod(b0 as nat, pow2(8));
    lemma_small_mod(b1 as nat, pow2(8));
    assert(b0 as u64 == (n64 >> 8u64) % 0x100);
    assert(b1 as u64 == n64 % 0x100);
    lemma_be16_compose(n64, b0, b1);
}

// ------------------------------------------------------------------
// Chunk
// ------------------------------------------------------------------

/// One XOR-compressed chunk: the byte buffer and, as ghost state, the
/// samples it encodes.
pub struct XORChunk {
    b: Bstream,
    samples: Ghost<Seq<(i64, u64)>>,
}

impl View for XORChunk {
    type V = Seq<(i64, u64)>;

    closed spec fn view(&self) -> Seq<(i64, u64)> {
        self.samples@
    }
}

impl XORChunk {
    pub closed spec fn wf(&self) -> bool {
        &&& self.b.wf()
        &&& self.samples@.len() <= 0xffff
        &&& self.b.bits() == chunk_bits(self.samples@)
        &&& self.b.free() == chunk_free(self.samples@)
    }

    /// A new, empty chunk: two zero header bytes.
    pub fn new() -> (r: XORChunk)
        ensures
            r.wf(),
            r@ == Seq::<(i64, u64)>::empty(),
            r.raw_bytes() == seq![0u8, 0u8],
    {
        let mut stream: Vec<u8> = Vec::with_capacity(128);
        stream.push(0);
        stream.push(0);
        proof {
            assert(stream@ =~= seq![0u8, 0u8]);
        }
        let b = Bstream::new(stream);
        let r = XORChunk { b, samples: Ghost(Seq::empty()) };
        proof {
            assert forall|k: u64| k < 64 implies !u8_bit(0u8, k) && !u64_bit(0u64, k) by {
                assert((0u8 >> k) & 1 != 1 && (0u64 >> k) & 1 != 1) by (bit_vector);
            }
            assert forall|i: int| 0 <= i < 16 implies stream_bits(seq![0u8, 0u8])[i] == bits_of(
                0u64,
                16,
            )[i] by {
                assert(!u64_bit(0u64, (15 - i) as u64));
                assert(0 <= i % 8 < 8);
                assert(!u8_bit(0u8, (7 - (i % 8)) as u64));
            }
            assert(r.b.bits() =~= chunk_bits(Seq::<(i64, u64)>::empty()));
        }
        r
    }

    /// The name of this chunk encoding.
    pub fn encoding() -> (r: String)
        ensures
            r@ == "XOR"@,
    {
        let r = "XOR".to_string();
        proof {
            vstd::string::to_string_from_display_ensures_for_str("XOR", r);
        }
        r
    }

    /// A borrowed view of the encoded bytes.
    pub fn bytes(&self) -> (r: &Vec<u8>)
        ensures
            r@ == self.raw_bytes(),
    {
        self.b.bytes()
    }

    /// The chunk's raw bytes.
    pub closed spec fn raw_bytes(&self) -> Seq<u8> {
        self.b.raw()
    }

    /// The chunk's bytes decompose into the encoding of its samples and
    /// zero padding whose width the samples determine too.
    pub proof fn lemma_raw_parts(&self)
        requires
            self.wf(),
        ensures
            stream_bits(self.raw_bytes()).len() == chunk_bits(self@).len() + chunk_free(self@),
            forall|i: int|
                0 <= i < chunk_bits(self@).len() ==> stream_bits(self.raw_bytes())[i]
                    == chunk_bits(self@)[i],
            forall|i: int|
                chunk_bits(self@).len() <= i < stream_bits(self.raw_bytes()).len()
                    ==> !stream_bits(self.raw_bytes())[i],
    {
        self.b.lemma_raw_bits();
    }

    /// The chunk's bytes spell exactly its encoding plus zero padding.
    pub proof fn lemma_encodes(&self)
        requires
            self.wf(),
        ensures
            chunk_encodes(self.raw_bytes(), self@),
    {
        self.b.lemma_raw_bits();
        assert(stream_bits(self.raw_bytes()).subrange(0, chunk_bits(self@).len() as int)
            =~= chunk_bits(self@));
    }

    /// A fresh decoder over the chunk's bytes.
    pub fn iterator<'a>(&'a self) -> (r: XORIterator<'a>)
        requires
            self.wf(),
        ensures
            r.wf(),
            r.nread() == 0,
            r.ntotal() == self@.len(),
            r.err_() is None,
            r.in_sync(self@),
    {
        proof {
            self.lemma_encodes();
        }
        let r = XORIterator::new(self.b.bytes());
        proof {
            r.lemma_in_sync_clean(self@);
        }
        r
    }

    /// Recovers the encoder state by replaying the existing samples
    /// through a throwaway iterator, then hands out an appender that
    /// continues the chunk; the appender owns the stream until
    /// `into_chunk` gives it back.
    pub fn appender(self) -> (r: Result<XORAppender, Error>)
        requires
            self.wf(),
        ensures
            r is Ok,
            r->Ok_0.wf(),
            r->Ok_0@ == self@,
    {
        proof {
            self.lemma_encodes();
            lemma_header_value(&self.b, self.samples@);
        }
        let XORChunk { b, samples } = self;
        let num = {
            let bytes = b.bytes();
            ((bytes[0] as u16) << 8) | (bytes[1] as u16)
        };
        let (t, val, t_delta, leading, trailing) = {
            let bytes = b.bytes();
            let mut it = XORIterator::new(bytes);
            loop
                invariant
                    it.wf(),
                    it.in_sync(samples@),
                ensures
                    it.wf(),
                    it.in_sync(samples@),
                    it.nread() == samples@.len(),
                decreases samples@.len() - it.nread(),
            {
                match it.next() {
                    Some(_) => {},
                    None => {
                        proof {
                            assert(it.nread() == samples@.len());
                        }
                        break ;
                    },
                }
            }
            match it.err() {
                Some(e) => {
                    return Err(e);
                },
                None => {},
            }
            (it.t, it.val, it.t_delta, it.leading, it.trailing)
        };
        let mut a = XORAppender { b, samples, t, v: val, t_delta, leading, trailing };
        if num == 0 {
            a.leading = WINDOW_UNSET;
        }
        proof {
            assert(samples@.take(samples@.len() as int) =~= samples@);
        }
        Ok(a)
    }
}

/// Law: a chunk's bytes are a function of its samples alone.  Any two
/// well-formed chunks holding the same samples — one written in a
/// single session and one whose appender was reopened mid-sequence —
/// hold byte-identical buffers, trailing padding included.
pub proof fn lemma_bytes_deterministic(a: &XORChunk, b: &XORChunk)
    requires
        a.wf(),
        b.wf(),
        a@ == b@,
    ensures
        a.raw_bytes() == b.raw_bytes(),
{
    a.lemma_raw_parts();
    b.lemma_raw_parts();
    let ra = a.raw_bytes();
    let rb = b.raw_bytes();
    assert(8 * ra.len() == 8 * rb.len());
    assert(ra.len() == rb.len());
    assert forall|j: int| 0 <= j < ra.len() implies ra[j] == rb[j] by {
        assert forall|k: u64| k < 8 implies u8_bit(ra[j], k) == u8_bit(rb[j], k) by {
            let i = 8 * j + 7 - k;
            assert(i / 8 == j && i % 8 == 7 - k) by (nonlinear_arith)
                requires
                    i == 8 * j + 7 - k,
                    0 <= j,
                    k < 8,
            ;
            assert(stream_bits(ra)[i] == u8_bit(ra[j], k));
            assert(stream_bits(rb)[i] == u8_bit(rb[j], k));
        }
        crate::bitseq::lemma_u8_eq_by_bits(ra[j], rb[j]);
    }
    assert(ra =~= rb);
}

/// Law: two consecutive XOR results whose zero-bit windows are
/// compatible encode the second with the two-bit reuse code and the
/// stored window's significant bits alone, never re-emitting the
/// leading-count and width fields.
pub proof fn lemma_window_reuse(prev_v: u64, l0: u8, t0: u8, v: u64)
    requires
        l0 != WINDOW_UNSET,
        v ^ prev_v != 0,
        clamp_leading(v ^ prev_v) >= l0,
        u64_trailing_zeros(v ^ prev_v) as u8 >= t0,
    ensures
        xor_bits(prev_v, l0, t0, v) == seq![true, false] + bits_of(
            (v ^ prev_v) >> (t0 as u64),
            64 - l0 - t0,
        ),
        xor_bits(prev_v, l0, t0, v).len() == 2 + 64 - l0 - t0,
        xor_window(prev_v, l0, t0, v) == (l0, t0),
{
}

/// `bytes` begins with the encoding of `samples`.
pub open spec fn chunk_encodes(bytes: Seq<u8>, samples: Seq<(i64, u64)>) -> bool {
    &&& samples.len() <= 0xffff
    &&& chunk_bits(samples).len() <= stream_bits(bytes).len()
    &&& stream_bits(bytes).subrange(0, chunk_bits(samples).len() as int) == chunk_bits(samples)
}

// ------------------------------------------------------------------
// Appender
// ------------------------------------------------------------------

/// The stateful encoder: owns the chunk's stream while samples are being
/// appended; `into_chunk` gives the chunk back.
pub struct XORAppender {
    b: Bstream,
    samples: Ghost<Seq<(i64, u64)>>,
    t: i64,
    v: u64,
    t_delta: u64,
    leading: u8,
    trailing: u8,
}

impl View for XORAppender {
    type V = Seq<(i64, u64)>;

    closed spec fn view(&self) -> Seq<(i64, u64)> {
        self.samples@
    }
}

impl XORAppender {
    /// Enough structure for the value encoder alone: a sound stream and
    /// a workable stored window.
    pub closed spec fn basic_wf(&self) -> bool {
        &&& self.b.wf()
        &&& window_inv(self.leading, self.trailing)
    }

    /// The bits written so far.
    pub closed spec fn bbits(&self) -> Seq<bool> {
        self.b.bits()
    }

    /// The stream's free-bit count.
    pub closed spec fn bfree(&self) -> nat {
        self.b.free()
    }

    /// The stored zero-bit window.
    pub closed spec fn window(&self) -> (u8, u8) {
        (self.leading, self.trailing)
    }

    /// The previous value's bit pattern.
    pub closed spec fn prev_v(&self) -> u64 {
        self.v
    }

    /// The previous timestamp and delta.
    pub closed spec fn prev_t(&self) -> i64 {
        self.t
    }

    pub closed spec fn prev_t_delta(&self) -> u64 {
        self.t_delta
    }

    /// Full well-formedness: the stream encodes the ghost samples and
    /// the fields are exactly the replay state.
    pub closed spec fn wf(&self) -> bool {
        &&& self.basic_wf()
        &&& self.samples@.len() <= 0xffff
        &&& self.b.bits() == chunk_bits(self.samples@)
        &&& self.b.free() == chunk_free(self.samples@)
        &&& ({
            let st = enc_state(self.samples@);
            &&& self.t == st.t
            &&& self.v == st.v
            &&& self.t_delta == st.t_delta
            &&& self.leading == st.leading
            &&& self.trailing == st.trailing
        })
    }

    /// Hands the finished chunk back.
    pub fn into_chunk(self) -> (r: XORChunk)
        requires
            self.wf(),
        ensures
            r.wf(),
            r@ == self@,
    {
        XORChunk { b: self.b, samples: self.samples }
    }

    /// Encodes one value against the previous one: nothing for an equal
    /// value, a window reuse where the XOR still fits the stored window,
    /// a fresh window otherwise.
    pub fn write_v_delta(&mut self, v: u64)
        requires
            old(self).basic_wf(),
        ensures
            final(self).basic_wf(),
            final(self).bbits() == old(self).bbits() + xor_bits(
                old(self).prev_v(),
                old(self).window().0,
                old(self).window().1,
                v,
            ),
            final(self).window() == xor_window(
                old(self).prev_v(),
                old(self).window().0,
                old(self).window().1,
                v,
            ),
            final(self).bfree() == free_after_xor(
                old(self).bfree(),
                old(self).prev_v(),
                old(self).window().0,
                old(self).window().1,
                v,
            ),
            final(self).prev_v() == old(self).prev_v(),
            final(self).prev_t() == old(self).prev_t(),
            final(self).prev_t_delta() == old(self).prev_t_delta(),
            final(self)@ == old(self)@,
    {
        let ghost x = v ^ old(self).v;
        let v_delta = v ^ self.v;
        if v_delta == 0 {
            self.b.write_bit(false);
            proof {
                assert(self.b.bits() =~= old(self).bbits() + seq![false]);
            }
            return ;
        }
        self.b.write_bit(true);
        let lz = v_delta.leading_zeros();
        let tz = v_delta.trailing_zeros();
        proof {
            lemma_lz_tz(x);
            assert(lz < 256 ==> (lz as u8) as u32 == lz) by (bit_vector);
            assert(tz < 256 ==> (tz as u8) as u32 == tz) by (bit_vector);
        }
        let mut leading = lz as u8;
        let trailing = tz as u8;
        if leading >= 32 {
            leading = 31;
        }
        proof {
            assert(leading == clamp_leading(x));
            assert(trailing == u64_trailing_zeros(x) as u8);
            assert(leading + trailing <= 63);
        }
        if self.leading != WINDOW_UNSET && leading >= self.leading && trailing >= self.trailing {
            self.b.write_bit(false);
            self.b.write_bits(
                v_delta >> self.trailing,
                64 - self.leading as i32 - self.trailing as i32,
            );
            proof {
                let l0 = old(self).leading;
                let t0 = old(self).trailing;
                assert(self.b.bits() =~= old(self).bbits() + (seq![true, false] + bits_of(
                    x >> (t0 as u64),
                    64 - l0 - t0,
                )));
            }
        } else {
            self.leading = leading;
            self.trailing = trailing;
            self.b.write_bit(true);
            self.b.write_bits(leading as u64, 5);
            // sigbits would be 64 exactly when the XOR has no zero run on
            // either side; the six-bit field spells that as 0, which the
            // decoder maps back, and 0 itself never occurs (the XOR is
            // nonzero here)
            let sigbits = 64 - leading - trailing;
            self.b.write_bits(sigbits as u64, 6);
            self.b.write_bits(v_delta >> trailing, sigbits as i32);
            proof {
                let lead = clamp_leading(x);
                let trail = u64_trailing_zeros(x) as u8;
                assert(self.b.bits() =~= old(self).bbits() + (seq![true, true] + bits_of(
                    lead as u64,
                    5,
                ) + bits_of((64 - lead - trail) as u64, 6) + bits_of(
                    x >> (trail as u64),
                    64 - lead - trail,
                )));
            }
        }
    }

    /// Appends one sample, growing the body and patching the header.
    #[allow(non_snake_case)]
    pub fn Append(&mut self, t: i64, v: u64)
        requires
            old(self).wf(),
            old(self)@.len() < 0xffff,
        ensures
            final(self).wf(),
            final(self)@ == old(self)@.push((t, v)),
    {
        let ghost samples = old(self).samples@;
        let ghost st = enc_state(samples);
        let ghost n = samples.len() as int;
        let mut t_delta: u64 = 0;
        proof {
            lemma_header_value(&self.b, samples);
        }
        let num = {
            let bytes = self.b.bytes();
            ((bytes[0] as u16) << 8) | (bytes[1] as u16)
        };
        if num == 0 {
            self.b.write_varint(t);
            self.b.write_bits(v, 64);
        } else if num == 1 {
            t_delta = t.wrapping_sub(self.t) as u64;
            self.b.write_uvarint(t_delta);
            self.write_v_delta(v);
        } else {
            t_delta = t.wrapping_sub(self.t) as u64;
            let dod = t_delta.wrapping_sub(self.t_delta) as i64;
            if dod == 0 {
                self.b.write_bit(false);
                proof {
                    assert(self.b.bits() =~= chunk_bits(samples) + seq![false]);
                }
            } else if bit_range(dod, 14) {
                self.b.write_bits(0b10, 2);
                self.b.write_bits(dod as u64, 14);
            } else if bit_range(dod, 17) {
                self.b.write_bits(0b110, 3);
                self.b.write_bits(dod as u64, 17);
            } else if bit_range(dod, 20) {
                self.b.write_bits(0b1110, 4);
                self.b.write_bits(dod as u64, 20);
            } else {
                self.b.write_bits(0b1111, 4);
                self.b.write_bits(dod as u64, 64);
            }
            proof {
                assert(self.b.bits() =~= chunk_bits(samples) + dod_bits(
                    dod_of(ts_delta(t, st.t), st.t_delta),
                ));
            }
            self.write_v_delta(v);
        }
        proof {
            assert(self.b.bits() =~= chunk_bits(samples) + sample_bits(st, n, t, v));
        }
        self.t = t;
        self.v = v;
        let byt1 = ((num + 1) >> 8) as u8;
        let byt2 = (num + 1) as u8;
        self.b.modify_first_two_bytes(byt1, byt2);
        self.t_delta = t_delta;
        self.samples = Ghost(samples.push((t, v)));
        proof {
            let samples2 = samples.push((t, v));
            assert(samples2.drop_last() =~= samples);
            assert(enc_state(samples2) == sample_next(st, n, t, v));
            lemma_be16_decompose((num + 1) as u16);
            let body = chunk_body_bits(samples);
            let piece = sample_bits(st, n, t, v);
            assert((chunk_bits(samples) + piece).skip(16) =~= body + piece);
            assert(self.b.bits() =~= bits_of(samples2.len() as u64, 16) + (body + piece));
            assert(chunk_body_bits(samples2) == body + piece);
        }
    }
}

// ------------------------------------------------------------------
// Decode-side lemmas
// ------------------------------------------------------------------

/// `piece` sits at position `p` of the bit stream `s`.
pub open spec fn bits_at(s: Seq<bool>, p: int, piece: Seq<bool>) -> bool {
    &&& 0 <= p
    &&& p + piece.len() <= s.len()
    &&& s.subrange(p, p + piece.len() as int) == piece
}

proof fn lemma_bits_at_split(s: Seq<bool>, p: int, a: Seq<bool>, b: Seq<bool>)
    requires
        bits_at(s, p, a + b),
    ensures
        bits_at(s, p, a),
        bits_at(s, p + a.len(), b),
{
    let ab = a + b;
    assert forall|j: int| 0 <= j < a.len() implies s.subrange(p, p + a.len() as int)[j] == a[j] by {
        assert(s.subrange(p, p + ab.len() as int)[j] == ab[j]);
    }
    assert(s.subrange(p, p + a.len() as int) =~= a);
    assert forall|j: int| 0 <= j < b.len() implies s.subrange(
        p + a.len(),
        p + a.len() + b.len() as int,
    )[j] == b[j] by {
        assert(s.subrange(p, p + ab.len() as int)[j + a.len()] == ab[j + a.len()]);
    }
    assert(s.subrange(p + a.len(), p + a.len() + b.len() as int) =~= b);
}

/// Every decoded prefix of the body is a prefix of the whole body.
proof fn lemma_body_take_prefix(samples: Seq<(i64, u64)>, m: int)
    requires
        0 <= m <= samples.len(),
    ensures
        chunk_body_bits(samples.take(m)).len() <= chunk_body_bits(samples).len(),
        chunk_body_bits(samples).subrange(0, chunk_body_bits(samples.take(m)).len() as int)
            == chunk_body_bits(samples.take(m)),
        m < samples.len() ==> chunk_body_bits(samples.take(m + 1)) == chunk_body_bits(
            samples.take(m),
        ) + sample_bits(enc_state(samples.take(m)), m, samples[m].0, samples[m].1),
    decreases samples.len() - m,
{
    if m < samples.len() {
        assert(samples.take(m + 1).drop_last() =~= samples.take(m));
        assert(samples.take(m + 1).last() == samples[m]);
        lemma_body_take_prefix(samples, m + 1);
        let bm = chunk_body_bits(samples.take(m));
        let bm1 = chunk_body_bits(samples.take(m + 1));
        assert forall|j: int| 0 <= j < bm.len() implies chunk_body_bits(samples).subrange(
            0,
            bm.len() as int,
        )[j] == bm[j] by {
            assert(chunk_body_bits(samples).subrange(0, bm1.len() as int)[j] == bm1[j]);
        }
        assert(chunk_body_bits(samples).subrange(0, bm.len() as int) =~= bm);
    } else {
        assert(samples.take(m) =~= samples);
        assert(chunk_body_bits(samples).subrange(0, chunk_body_bits(samples).len() as int)
            =~= chunk_body_bits(samples));
    }
}

/// Midway through a faithful decode, the bits ahead of the cursor are
/// exactly the next sample's code.
proof fn lemma_in_sync_sample<'a>(it: XORIterator<'a>, samples: Seq<(i64, u64)>)
    requires
        it.in_sync(samples),
        it.nread() < samples.len(),
    ensures
        ({
            let k = it.nread();
            let st = enc_state(samples.take(k));
            let piece = sample_bits(st, k, samples[k].0, samples[k].1);
            &&& it.dec_state() == st
            &&& bits_at(it.sbits_(), it.pos_(), piece)
            &&& enc_state(samples.take(k + 1)) == sample_next(st, k, samples[k].0, samples[k].1)
            &&& 16 + chunk_body_bits(samples.take(k + 1)).len() == it.pos_() + piece.len()
        }),
{
    let k = it.nread();
    let st = enc_state(samples.take(k));
    let piece = sample_bits(st, k, samples[k].0, samples[k].1);
    lemma_body_take_prefix(samples, k);
    lemma_body_take_prefix(samples, k + 1);
    assert(samples.take(k + 1).drop_last() =~= samples.take(k));
    assert(samples.take(k + 1).last() == samples[k]);
    let s = it.sbits_();
    let body = chunk_body_bits(samples);
    let lk = chunk_body_bits(samples.take(k)).len() as int;
    let ck = chunk_bits(samples);
    assert forall|j: int| 0 <= j < piece.len() implies s.subrange(
        it.pos_(),
        it.pos_() + piece.len() as int,
    )[j] == piece[j] by {
        assert(s.subrange(0, ck.len() as int)[16 + lk + j] == ck[16 + lk + j]);
        assert(ck[16 + lk + j] == body[lk + j]);
        assert(body.subrange(0, chunk_body_bits(samples.take(k + 1)).len() as int)[lk + j]
            == chunk_body_bits(samples.take(k + 1))[lk + j]);
        assert(chunk_body_bits(samples.take(k + 1))[lk + j] == piece[j]);
    }
    assert(s.subrange(it.pos_(), it.pos_() + piece.len() as int) =~= piece);
}

proof fn lemma_u64_i64_roundtrip(x: u64)
    by (bit_vector)
    ensures
        ((x as i64) as u64) == x,
{
}

proof fn lemma_i64_u64_roundtrip(y: i64)
    by (bit_vector)
    ensures
        ((y as u64) as i64) == y,
{
}

proof fn lemma_i64_cast(x: i64)
    by (bit_vector)
    ensures
        x >= 0 ==> (x as u64) == x,
        x < 0 ==> (x as u64) == x + 0x1_0000_0000_0000_0000,
{
}

proof fn lemma_u64_as_i64(d: u64)
    by (bit_vector)
    ensures
        d < 0x8000_0000_0000_0000 ==> (d as i64) == d,
        d >= 0x8000_0000_0000_0000 ==> (d as i64) == d - 0x1_0000_0000_0000_0000,
{
}

proof fn lemma_xor_undo(prev: u64, v: u64)
    by (bit_vector)
    ensures
        prev ^ (v ^ prev) == v,
        v ^ prev == 0 ==> v == prev,
{
}

/// The decoder's timestamp reconstruction inverts the encoder's wrapping
/// delta.
proof fn lemma_wrap_recover_t(prev: i64, t: i64)
    ensures
        i64_specs::wrapping_add(prev, (ts_delta(t, prev) as i64)) == t,
{
    lemma_i64_u64_roundtrip(i64_specs::wrapping_sub(t, prev));
}

/// The decoder's delta reconstruction inverts the encoder's wrapping
/// delta-of-delta.
proof fn lemma_wrap_recover_td(prev_td: u64, td: u64)
    ensures
        u64_specs::wrapping_add(prev_td, (dod_of(td, prev_td) as u64)) == td,
{
    lemma_u64_i64_roundtrip(u64_specs::wrapping_sub(td, prev_td));
}

/// The concrete bit strings of the four nonzero width prefixes.
proof fn lemma_prefix_bits()
    ensures
        bits_of(0b10, 2) == seq![true, false],
        bits_of(0b110, 3) == seq![true, true, false],
        bits_of(0b1110, 4) == seq![true, true, true, false],
        bits_of(0b1111, 4) == seq![true, true, true, true],
{
    assert(u64_bit(2, 1) && !u64_bit(2, 0) && u64_bit(6, 2) && u64_bit(6, 1) && !u64_bit(6, 0)
        && u64_bit(14, 3) && u64_bit(14, 2) && u64_bit(14, 1) && !u64_bit(14, 0) && u64_bit(15, 3)
        && u64_bit(15, 2) && u64_bit(15, 1) && u64_bit(15, 0)) by (bit_vector);
    assert(bits_of(0b10, 2) =~= seq![true, false]);
    assert(bits_of(0b110, 3) =~= seq![true, true, false]);
    assert(bits_of(0b1110, 4) =~= seq![true, true, true, false]);
    assert(bits_of(0b1111, 4) =~= seq![true, true, true, true]);
}

/// Re-signing an `sz`-bit payload recovers the delta-of-delta the
/// encoder truncated into it.
proof fn lemma_dod_resign(dod: i64, r: u64, sz: u64)
    requires
        sz == 14 || sz == 17 || sz == 20,
        dod != 0,
        in_bit_range(dod, sz as u8),
        r as nat == ((dod as u64) as nat) % pow2(sz as nat),
    ensures
        ({
            let adj = if r > (1u64 << ((sz - 1) as u64)) {
                u64_specs::wrapping_sub(r, 1u64 << sz)
            } else {
                r
            };
            (adj as i64) == dod
        }),
{
    lemma2_to64();
    assert((1u64 << 13) == 0x2000 && (1u64 << 14) == 0x4000 && (1u64 << 16) == 0x10000 && (1u64
        << 17) == 0x20000 && (1u64 << 19) == 0x80000 && (1u64 << 20) == 0x100000) by (bit_vector);
    assert((1i64 << 13) == 0x2000 && (1i64 << 16) == 0x10000 && (1i64 << 19) == 0x80000)
        by (bit_vector);
    lemma_i64_cast(dod);
    let p = pow2(sz as nat) as int;
    let ph = pow2((sz - 1) as nat) as int;
    assert(p == 2 * ph) by {
        vstd::arithmetic::power2::lemma_pow2_unfold(sz as nat);
    }
    let du = dod as u64;
    if dod > 0 {
        assert(dod <= ph);
        lemma_small_mod(du as nat, pow2(sz as nat));
        assert(r == dod);
        lemma_u64_as_i64(r);
    } else {
        assert(-(ph - 1) <= dod < 0);
        let q = pow2((64 - sz) as nat) as int - 1;
        assert(pow2((64 - sz) as nat) * pow2(sz as nat) == pow2(64)) by {
            lemma_pow2_adds((64 - sz) as nat, sz as nat);
        }
        lemma2_to64_rest();
        assert(du as int == q * p + (dod + p)) by (nonlinear_arith)
            requires
                du as int == dod + 0x1_0000_0000_0000_0000,
                (q + 1) * p == 0x1_0000_0000_0000_0000,
        ;
        lemma_fundamental_div_mod_converse_mod(du as int, p, q, dod + p);
        assert(r == dod + p);
        assert(r > ph);
        assert(u64_specs::wrapping_sub(r, (1u64 << sz)) == dod + 0x1_0000_0000_0000_0000);
        lemma_u64_as_i64(u64_specs::wrapping_sub(r, (1u64 << sz)));
    }
}

// ------------------------------------------------------------------
// Iterator
// ------------------------------------------------------------------

/// The stateful decoder: replays a chunk's bytes back into samples,
/// mirroring the appender's state machine.  Any decode failure is
/// recorded once and every later call reports plain exhaustion.
#[derive(Debug)]
pub struct XORIterator<'a> {
    br: BstreamReader<'a>,
    num_total: u16,
    num_read: u16,
    t: i64,
    val: u64,
    leading: u8,
    trailing: u8,
    t_delta: u64,
    err: Option<Error>,
}

impl<'a> XORIterator<'a> {
    /// The bits of the backing buffer.
    pub closed spec fn sbits_(&self) -> Seq<bool> {
        self.br.sbits()
    }

    /// The read position, in bits.
    pub closed spec fn pos_(&self) -> int {
        self.br.pos()
    }

    /// How many samples have been decoded.
    pub closed spec fn nread(&self) -> int {
        self.num_read as int
    }

    /// The header's sample count.
    pub closed spec fn ntotal(&self) -> int {
        self.num_total as int
    }

    /// The recorded terminal error, if any.
    pub closed spec fn err_(&self) -> Option<Error> {
        self.err
    }

    /// The decoder's reconstruction of the encoder state.
    pub closed spec fn dec_state(&self) -> EncState {
        EncState {
            t: self.t,
            v: self.val,
            t_delta: self.t_delta,
            leading: self.leading,
            trailing: self.trailing,
        }
    }

    pub closed spec fn wf(&self) -> bool {
        &&& self.br.wf()
        &&& window_inv(self.leading, self.trailing)
        &&& self.num_read <= self.num_total
    }

    /// No more samples will come: the count is exhausted or an error was
    /// recorded.
    pub closed spec fn done(&self) -> bool {
        self.err is Some || self.num_read == self.num_total
    }

    /// The iterator is faithfully midway through decoding `samples`.
    pub closed spec fn in_sync(&self, samples: Seq<(i64, u64)>) -> bool {
        &&& self.err is None
        &&& self.num_total == samples.len()
        &&& self.num_read <= samples.len()
        &&& chunk_bits(samples).len() <= self.br.sbits().len()
        &&& self.br.sbits().subrange(0, chunk_bits(samples).len() as int) == chunk_bits(samples)
        &&& self.br.pos() == 16 + chunk_body_bits(samples.take(self.num_read as int)).len()
        &&& self.dec_state() == enc_state(samples.take(self.num_read as int))
    }

    /// A decoder that is faithfully midway through some sample sequence
    /// carries no error, and its header count is that sequence's length.
    pub proof fn lemma_in_sync_clean(&self, samples: Seq<(i64, u64)>)
        requires
            self.in_sync(samples),
        ensures
            self.err_() is None,
            self.ntotal() == samples.len(),
            self.nread() <= samples.len(),
    {
    }

    /// Reads the two header bytes and positions the cursor at the body.
    /// A buffer too short even for the header yields an iterator that
    /// only reports an error.
    pub fn new(stream: &'a Vec<u8>) -> (r: XORIterator<'a>)
        ensures
            r.wf(),
            r.nread() == 0,
            stream@.len() < 2 ==> r.err_() is Some,
            stream@.len() >= 2 ==> r.err_() is None && r.ntotal() == 256 * (
            stream@[0] as int) + stream@[1],
            forall|samples: Seq<(i64, u64)>|
                chunk_encodes(stream@, samples) ==> #[trigger] r.in_sync(samples),
    {
        let mut br = BstreamReader::new(stream);
        let mut num_total: u16 = 0;
        let mut err: Option<Error> = None;
        match br.read_byte() {
            Ok(byt) => {
                proof {
                    let sb = stream_bits(stream@);
                    assert forall|i: int| 0 <= i < 8 implies sb.subrange(0, 8)[i] == byte_bits(
                        stream@[0],
                    )[i] by {
                        assert(i / 8 == 0 && i % 8 == i) by (nonlinear_arith)
                            requires
                                0 <= i < 8,
                        ;
                    }
                    assert(sb.subrange(0, 8) =~= byte_bits(stream@[0]));
                    lemma_byte_bits_as_bits_of(stream@[0]);
                    lemma_bits_of_val(stream@[0] as u64, 8);
                    lemma2_to64();
                    lemma_small_mod(stream@[0] as nat, pow2(8));
                    assert(byt == stream@[0]);
                }
                num_total = num_total | (byt as u16);
                proof {
                    let x = byt;
                    assert((0u16 | (x as u16)) as int == x as int) by (bit_vector);
                }
            },
            Err(e) => {
                err = Some(e);
            },
        }
        if err.is_none() {
            match br.read_byte() {
                Ok(byt) => {
                    proof {
                        let sb = stream_bits(stream@);
                        assert forall|i: int| 0 <= i < 8 implies sb.subrange(8, 16)[i]
                            == byte_bits(stream@[1])[i] by {
                            let m = 8 + i;
                            assert(m / 8 == 1 && m % 8 == i) by (nonlinear_arith)
                                requires
                                    0 <= i < 8,
                                    m == 8 + i,
                            ;
                        }
                        assert(sb.subrange(8, 16) =~= byte_bits(stream@[1]));
                        lemma_byte_bits_as_bits_of(stream@[1]);
                        lemma_bits_of_val(stream@[1] as u64, 8);
                        lemma2_to64();
                        lemma_small_mod(stream@[1] as nat, pow2(8));
                        assert(byt == stream@[1]);
                    }
                    num_total = (num_total << 8) | (byt as u16);
                    proof {
                        let a = stream@[0];
                        let b = stream@[1];
                        assert((((a as u16) << 8u16) | (b as u16)) as int == 256 * (a as int) + (
                        b as int)) by (bit_vector);
                    }
                },
                Err(e) => {
                    err = Some(e);
                },
            }
        }
        let r = XORIterator {
            br,
            num_total,
            num_read: 0,
            t: i64::MIN,
            val: 0,
            leading: WINDOW_UNSET,
            trailing: 0,
            t_delta: 0,
            err,
        };
        proof {
            assert forall|samples: Seq<(i64, u64)>| chunk_encodes(stream@, samples) implies
                #[trigger] r.in_sync(samples) by {
                let n64 = samples.len() as u64;
                let cb = chunk_bits(samples);
                let sb = stream_bits(stream@);
                assert(cb.len() >= 16);
                let b0 = r.br.sbits().subrange(0, 8);
                let b1 = r.br.sbits().subrange(8, 16);
                assert forall|i: int| 0 <= i < 8 implies b0[i] == bits_of(n64 >> 8u64, 8)[i] by {
                    assert(sb.subrange(0, cb.len() as int)[i] == cb[i]);
                    lemma_u64_bit_shr(n64, 8, (7 - i) as u64);
                }
                assert(b0 =~= bits_of(n64 >> 8u64, 8));
                assert forall|i: int| 0 <= i < 8 implies b1[i] == bits_of(n64, 8)[i] by {
                    assert(sb.subrange(0, cb.len() as int)[8 + i] == cb[8 + i]);
                }
                assert(b1 =~= bits_of(n64, 8));
                lemma_bits_of_val(n64 >> 8u64, 8);
                lemma_bits_of_val(n64, 8);
                let v0 = bits_val(b0) as u64;
                let v1 = bits_val(b1) as u64;
                lemma2_to64();
                assert(v0 == (n64 >> 8u64) % 0x100 && v1 == n64 % 0x100);
                assert(num_total as u64 == (((v0 as u16) << 8u16) | (v1 as u16)) as u64) by {
                    let a = v0;
                    let b = v1;
                    assert(a < 0x100 && b < 0x100 ==> ((0u16 | (a as u16)) << 8u16) | (b as u16)
                        == (((a as u16) << 8u16) | (b as u16))) by (bit_vector);
                }
                lemma_be16_compose(n64, v0 as u8, v1 as u8);
                assert(samples.take(0) =~= Seq::<(i64, u64)>::empty());
            }
        }
        r
    }

    /// An accessor for the terminal error after exhaustion.
    pub fn err(&self) -> (r: Option<Error>)
        ensures
            r == self.err_(),
    {
        self.err
    }

    fn read_bit_or_fast(&mut self) -> (r: Result<bool, Error>)
        requires
            old(self).wf(),
        ensures
            final(self).wf(),
            final(self).br.sbits() == old(self).br.sbits(),
            final(self).num_total == old(self).num_total,
            final(self).num_read == old(self).num_read,
            final(self).t == old(self).t,
            final(self).val == old(self).val,
            final(self).leading == old(self).leading,
            final(self).trailing == old(self).trailing,
            final(self).t_delta == old(self).t_delta,
            final(self).err == old(self).err,
            r is Ok <==> old(self).br.pos() < old(self).br.sbits().len(),
            r is Ok ==> r == Ok::<bool, Error>(old(self).br.sbits()[old(self).br.pos()])
                && final(self).br.pos() == old(self).br.pos() + 1,
            r is Err ==> final(self).br.pos() == old(self).br.pos(),
    {
        proof {
            old(self).br.lemma_bounds();
        }
        match self.br.read_bit_fast() {
            Ok(b) => Ok(b),
            Err(_) => self.br.read_bit(),
        }
    }

    fn read_bits_or_fast(&mut self, nbits: u8) -> (r: Result<u64, Error>)
        requires
            old(self).wf(),
            1 <= nbits <= 64,
        ensures
            final(self).wf(),
            final(self).br.sbits() == old(self).br.sbits(),
            final(self).num_total == old(self).num_total,
            final(self).num_read == old(self).num_read,
            final(self).t == old(self).t,
            final(self).val == old(self).val,
            final(self).leading == old(self).leading,
            final(self).trailing == old(self).trailing,
            final(self).t_delta == old(self).t_delta,
            final(self).err == old(self).err,
            r is Ok <==> old(self).br.pos() + nbits <= old(self).br.sbits().len(),
            r is Ok ==> {
                &&& final(self).br.pos() == old(self).br.pos() + nbits
                &&& r->Ok_0 as nat == bits_val(
                    old(self).br.sbits().subrange(
                        old(self).br.pos(),
                        old(self).br.pos() + nbits,
                    ),
                )
                &&& (r->Ok_0 as nat) < pow2(nbits as nat)
            },
    {
        proof {
            old(self).br.lemma_bounds();
        }
        match self.br.read_bits_fast(nbits) {
            Ok(b) => Ok(b),
            Err(_) => self.br.read_bits(nbits),
        }
    }

    /// Decodes one XOR-coded value into the running value and counts the
    /// sample as read; mirrors the encoder's three cases and records a
    /// terminal error on a malformed or truncated stream.
    #[verifier::rlimit(80)]
    pub fn read_value(&mut self) -> (r: Option<(i64, u64)>)
        requires
            old(self).wf(),
            old(self).err_() is None,
            old(self).nread() < old(self).ntotal(),
        ensures
            final(self).wf(),
            final(self).sbits_() == old(self).sbits_(),
            final(self).ntotal() == old(self).ntotal(),
            final(self).dec_state().t == old(self).dec_state().t,
            final(self).dec_state().t_delta == old(self).dec_state().t_delta,
            r is None ==> final(self).err_() is Some && final(self).nread() == old(self).nread(),
            r is Some ==> final(self).err_() is None && final(self).nread() == old(self).nread()
                + 1 && r == Some((old(self).dec_state().t, final(self).dec_state().v)),
            forall|v: u64|
                bits_at(
                    old(self).sbits_(),
                    old(self).pos_(),
                    #[trigger] xor_bits(
                        old(self).dec_state().v,
                        old(self).dec_state().leading,
                        old(self).dec_state().trailing,
                        v,
                    ),
                ) ==> {
                    &&& r == Some((old(self).dec_state().t, v))
                    &&& final(self).dec_state().v == v
                    &&& (
                    final(self).dec_state().leading,
                    final(self).dec_state().trailing,
                    ) == xor_window(
                        old(self).dec_state().v,
                        old(self).dec_state().leading,
                        old(self).dec_state().trailing,
                        v,
                    )
                    &&& final(self).pos_() == old(self).pos_() + xor_bits(
                        old(self).dec_state().v,
                        old(self).dec_state().leading,
                        old(self).dec_state().trailing,
                        v,
                    ).len()
                },
    {
        let ghost prev = old(self).val;
        let ghost l0 = old(self).leading;
        let ghost t0 = old(self).trailing;
        let ghost s = old(self).br.sbits();
        let ghost p0 = old(self).br.pos();
        let bit = match self.read_bit_or_fast() {
            Ok(b) => b,
            Err(e) => {
                self.err = Some(e);
                proof {
                    assert forall|v: u64|
                        bits_at(s, p0, #[trigger] xor_bits(prev, l0, t0, v)) implies false by {
                        assert(xor_bits(prev, l0, t0, v).len() >= 1);
                    }
                }
                return None;
            },
        };
        if bit {
            let bit2 = match self.read_bit_or_fast() {
                Ok(b) => b,
                Err(e) => {
                    self.err = Some(e);
                    proof {
                        assert forall|v: u64|
                            bits_at(s, p0, #[trigger] xor_bits(prev, l0, t0, v)) implies false by {
                            let piece = xor_bits(prev, l0, t0, v);
                            assert(piece[0] == s[p0]);
                            assert(v ^ prev != 0);
                            assert(piece.len() >= 2);
                        }
                    }
                    return None;
                },
            };
            if bit2 {
                // a fresh window: 5-bit leading count, 6-bit width
                let bits5 = match self.read_bits_or_fast(5) {
                    Ok(b) => b,
                    Err(e) => {
                        self.err = Some(e);
                        proof {
                            assert forall|v: u64|
                                bits_at(s, p0, #[trigger] xor_bits(prev, l0, t0, v)) implies
                                false by {
                                let piece = xor_bits(prev, l0, t0, v);
                                assert(piece[0] == s[p0]);
                                assert(piece[1] == s[p0 + 1]);
                                assert(piece.len() >= 13);
                            }
                        }
                        return None;
                    },
                };
                let new_leading = bits5 as u8;
                let mbits_raw = match self.read_bits_or_fast(6) {
                    Ok(b) => b,
                    Err(e) => {
                        self.err = Some(e);
                        proof {
                            assert forall|v: u64|
                                bits_at(s, p0, #[trigger] xor_bits(prev, l0, t0, v)) implies
                                false by {
                                let piece = xor_bits(prev, l0, t0, v);
                                assert(piece[0] == s[p0]);
                                assert(piece[1] == s[p0 + 1]);
                                assert(piece.len() >= 13);
                            }
                        }
                        return None;
                    },
                };
                let mut mbits = mbits_raw as u8;
                if mbits == 0 {
                    // six bits cannot spell 64; the encoder wrote 0 for it
                    mbits = 64;
                }
                if new_leading as u16 + mbits as u16 > 64 {
                    // no XOR result has zero runs that long: malformed input
                    self.err = Some(Error::InvalidWindow);
                    proof {
                        assert forall|v: u64|
                            bits_at(s, p0, #[trigger] xor_bits(prev, l0, t0, v)) implies false by {
                            self.lemma_fresh_window_fields(s, p0, prev, l0, t0, v, bits5, mbits_raw);
                        }
                    }
                    return None;
                }
                proof {
                    lemma2_to64();
                    assert(bits5 < 32);
                }
                self.leading = new_leading;
                self.trailing = 64 - new_leading - mbits;
                proof {
                    assert forall|v: u64|
                        bits_at(s, p0, #[trigger] xor_bits(prev, l0, t0, v)) implies {
                        let x = v ^ prev;
                        &&& x != 0
                        &&& (self.leading, self.trailing) == xor_window(prev, l0, t0, v)
                        &&& self.leading + self.trailing <= 63
                        &&& bits_at(
                            s,
                            self.br.pos(),
                            bits_of(
                                x >> (self.trailing as u64),
                                64 - self.leading - self.trailing,
                            ),
                        )
                        &&& p0 + xor_bits(prev, l0, t0, v).len() == self.br.pos() + (64
                            - self.leading - self.trailing)
                        &&& ((x >> (self.trailing as u64)) as nat) < pow2(
                            (64 - self.leading - self.trailing) as nat,
                        )
                        &&& (x >> (self.trailing as u64)) << (self.trailing as u64) == x
                    } by {
                        self.lemma_fresh_window_fields(s, p0, prev, l0, t0, v, bits5, mbits_raw);
                        let x = v ^ prev;
                        let lead = clamp_leading(x);
                        let trail = u64_trailing_zeros(x) as u8;
                        lemma_lz_tz(x);
                        lemma_xor_shift(x, lead, trail);
                    }
                }
            } else {
                // reuse the stored window
                if self.leading == WINDOW_UNSET {
                    // nothing to reuse: malformed input
                    self.err = Some(Error::InvalidWindow);
                    proof {
                        assert forall|v: u64|
                            bits_at(s, p0, #[trigger] xor_bits(prev, l0, t0, v)) implies false by {
                            let piece = xor_bits(prev, l0, t0, v);
                            assert(piece[0] == s[p0]);
                            assert(piece[1] == s[p0 + 1]);
                        }
                    }
                    return None;
                }
                proof {
                    assert forall|v: u64|
                        bits_at(s, p0, #[trigger] xor_bits(prev, l0, t0, v)) implies {
                        let x = v ^ prev;
                        &&& x != 0
                        &&& (self.leading, self.trailing) == xor_window(prev, l0, t0, v)
                        &&& self.leading + self.trailing <= 63
                        &&& bits_at(
                            s,
                            self.br.pos(),
                            bits_of(
                                x >> (self.trailing as u64),
                                64 - self.leading - self.trailing,
                            ),
                        )
                        &&& p0 + xor_bits(prev, l0, t0, v).len() == self.br.pos() + (64
                            - self.leading - self.trailing)
                        &&& ((x >> (self.trailing as u64)) as nat) < pow2(
                            (64 - self.leading - self.trailing) as nat,
                        )
                        &&& (x >> (self.trailing as u64)) << (self.trailing as u64) == x
                    } by {
                        let piece = xor_bits(prev, l0, t0, v);
                        assert(piece[0] == s[p0]);
                        assert(piece[1] == s[p0 + 1]);
                        let x = v ^ prev;
                        let lead = clamp_leading(x);
                        let trail = u64_trailing_zeros(x) as u8;
                        lemma_lz_tz(x);
                        assert(lead >= l0 && trail >= t0 && l0 != WINDOW_UNSET);
                        lemma_xor_shift(x, l0, t0);
                        lemma_bits_at_split(
                            s,
                            p0,
                            seq![true, false],
                            bits_of(x >> (t0 as u64), 64 - l0 - t0),
                        );
                    }
                }
            }
            let mbits = 64 - self.leading - self.trailing;
            let ghost p_pay = self.br.pos();
            let ghost lead_now = self.leading;
            let ghost trail_now = self.trailing;
            let bits = match self.read_bits_or_fast(mbits) {
                Ok(b) => b,
                Err(e) => {
                    self.err = Some(e);
                    proof {
                        assert forall|v: u64|
                            bits_at(s, p0, #[trigger] xor_bits(prev, l0, t0, v)) implies false by {
                            let x = v ^ prev;
                            assert(bits_at(
                                s,
                                p_pay,
                                bits_of(x >> (trail_now as u64), 64 - lead_now - trail_now),
                            ));
                        }
                    }
                    return None;
                },
            };
            self.val = self.val ^ (bits << self.trailing);
            proof {
                assert forall|v: u64|
                    bits_at(s, p0, #[trigger] xor_bits(prev, l0, t0, v)) implies {
                    &&& self.val == v
                    &&& (self.leading, self.trailing) == xor_window(prev, l0, t0, v)
                    &&& self.br.pos() == p0 + xor_bits(prev, l0, t0, v).len()
                } by {
                    let x = v ^ prev;
                    let y = x >> (trail_now as u64);
                    let m = 64 - lead_now - trail_now;
                    assert(bits_at(s, p_pay, bits_of(y, m)));
                    assert(bits as nat == bits_val(s.subrange(p_pay, p_pay + m)));
                    lemma_bits_of_val(y, m);
                    lemma_small_mod(y as nat, pow2(m as nat));
                    assert(bits == y);
                    assert(prev ^ (y << (trail_now as u64)) == v) by {
                        lemma_xor_undo(prev, v);
                    }
                }
            }
        } else {
            proof {
                assert forall|v: u64|
                    bits_at(s, p0, #[trigger] xor_bits(prev, l0, t0, v)) implies {
                    &&& self.val == v
                    &&& (self.leading, self.trailing) == xor_window(prev, l0, t0, v)
                    &&& self.br.pos() == p0 + xor_bits(prev, l0, t0, v).len()
                } by {
                    let piece = xor_bits(prev, l0, t0, v);
                    assert(piece[0] == s[p0]);
                    assert(v ^ prev == 0);
                    lemma_xor_undo(prev, v);
                }
            }
        }
        self.num_read = self.num_read + 1;
        Some((self.t, self.val))
    }

    /// Decodes the next sample, or reports exhaustion.  The first decode
    /// failure is recorded once; every later call returns `None` at once
    /// without touching the stream again.
    pub fn next(&mut self) -> (r: Option<(i64, u64)>)
        requires
            old(self).wf(),
        ensures
            final(self).wf(),
            final(self).ntotal() == old(self).ntotal(),
            final(self).nread() >= old(self).nread(),
            old(self).done() ==> r is None && *final(self) == *old(self),
            r is None ==> final(self).done(),
            r is None && !old(self).done() ==> final(self).err_() is Some,
            r is Some ==> final(self).nread() == old(self).nread() + 1,
            forall|samples: Seq<(i64, u64)>| #[trigger] old(self).in_sync(samples) ==> {
                if old(self).nread() < samples.len() {
                    &&& r == Some(samples[old(self).nread()])
                    &&& final(self).in_sync(samples)
                    &&& final(self).nread() == old(self).nread() + 1
                } else {
                    &&& r is None
                    &&& *final(self) == *old(self)
                }
            },
    {
        if self.err.is_some() || self.num_read == self.num_total {
            return None;
        }
        if self.num_read == 0 {
            self.next_first()
        } else if self.num_read == 1 {
            self.next_second()
        } else {
            self.next_steady()
        }
    }

    /// The common conditional contract of the three decode steps, for a
    /// not-yet-done iterator.
    spec fn step_post(pre: XORIterator<'a>, post: XORIterator<'a>, r: Option<(i64, u64)>) -> bool {
        &&& post.wf()
        &&& post.ntotal() == pre.ntotal()
        &&& post.nread() >= pre.nread()
        &&& (r is None ==> post.done() && post.err_() is Some)
        &&& (r is Some ==> post.nread() == pre.nread() + 1)
        &&& forall|samples: Seq<(i64, u64)>| #[trigger] pre.in_sync(samples) ==> {
            &&& r == Some(samples[pre.nread()])
            &&& post.in_sync(samples)
            &&& post.nread() == pre.nread() + 1
        }
    }

    /// Decodes the first sample: a full timestamp and a raw value.
    #[verifier::rlimit(100)]
    fn next_first(&mut self) -> (r: Option<(i64, u64)>)
        requires
            old(self).wf(),
            old(self).err_() is None,
            old(self).nread() == 0,
            old(self).nread() < old(self).ntotal(),
        ensures
            Self::step_post(*old(self), *final(self), r),
    {
        let ghost s = self.br.sbits();
        let ghost k = self.num_read as int;
        let ghost st0 = self.dec_state();
        let ghost p0 = self.br.pos();
        proof {
            assert forall|samples: Seq<(i64, u64)>| old(self).in_sync(samples) implies {
                &&& k < samples.len()
                &&& st0 == enc_state(samples.take(k))
                &&& bits_at(
                    s,
                    p0,
                    sample_bits(enc_state(samples.take(k)), k, samples[k].0, samples[k].1),
                )
                &&& enc_state(samples.take(k + 1)) == sample_next(
                    enc_state(samples.take(k)),
                    k,
                    samples[k].0,
                    samples[k].1,
                )
                &&& 16 + chunk_body_bits(samples.take(k + 1)).len() == p0 + sample_bits(
                    enc_state(samples.take(k)),
                    k,
                    samples[k].0,
                    samples[k].1,
                ).len()
            } by {
                lemma_in_sync_sample(*old(self), samples);
            }
        }
        {
            match self.br.read_varint() {
                Ok(t) => {
                    self.t = t;
                },
                Err(e) => {
                    self.err = Some(e);
                    proof {
                        assert forall|samples: Seq<(i64, u64)>|
                            old(self).in_sync(samples) implies false by {
                            let (ts, vs) = samples[k];
                            let piece = sample_bits(st0, 0, ts, vs);
                            lemma_bits_at_split(s, p0, uvarint_bits(zigzag(ts)), bits_of(vs, 64));
                            lemma_uvarint_round_trip(s, p0, zigzag(ts));
                        }
                    }
                    return None;
                },
            }
            match self.br.read_bits(64) {
                Ok(val) => {
                    self.val = val;
                },
                Err(e) => {
                    self.err = Some(e);
                    proof {
                        assert forall|samples: Seq<(i64, u64)>|
                            old(self).in_sync(samples) implies false by {
                            let (ts, vs) = samples[k];
                            let piece = sample_bits(st0, 0, ts, vs);
                            lemma_bits_at_split(s, p0, uvarint_bits(zigzag(ts)), bits_of(vs, 64));
                            lemma_uvarint_round_trip(s, p0, zigzag(ts));
                        }
                    }
                    return None;
                },
            }
            self.num_read = self.num_read + 1;
            proof {
                assert forall|samples: Seq<(i64, u64)>| old(self).in_sync(samples) implies {
                    &&& Some((self.t, self.val)) == Some(samples[k])
                    &&& self.in_sync(samples)
                } by {
                    let (ts, vs) = samples[k];
                    lemma_bits_at_split(s, p0, uvarint_bits(zigzag(ts)), bits_of(vs, 64));
                    lemma_uvarint_round_trip(s, p0, zigzag(ts));
                    lemma_zigzag_round_trip(ts);
                    lemma_bits_of_val(vs, 64);
                    lemma2_to64_rest();
                    lemma_small_mod(vs as nat, pow2(64));
                    assert(self.val == vs);
                }
            }
            return Some((self.t, self.val));
        }
    }

    /// Decodes the second sample: a plain unsigned timestamp delta, then
    /// the XOR-coded value.
    #[verifier::rlimit(100)]
    fn next_second(&mut self) -> (r: Option<(i64, u64)>)
        requires
            old(self).wf(),
            old(self).err_() is None,
            old(self).nread() == 1,
            old(self).nread() < old(self).ntotal(),
        ensures
            Self::step_post(*old(self), *final(self), r),
    {
        let ghost s = self.br.sbits();
        let ghost k = self.num_read as int;
        let ghost st0 = self.dec_state();
        let ghost p0 = self.br.pos();
        proof {
            assert forall|samples: Seq<(i64, u64)>| old(self).in_sync(samples) implies {
                &&& k < samples.len()
                &&& st0 == enc_state(samples.take(k))
                &&& bits_at(
                    s,
                    p0,
                    sample_bits(enc_state(samples.take(k)), k, samples[k].0, samples[k].1),
                )
                &&& enc_state(samples.take(k + 1)) == sample_next(
                    enc_state(samples.take(k)),
                    k,
                    samples[k].0,
                    samples[k].1,
                )
                &&& 16 + chunk_body_bits(samples.take(k + 1)).len() == p0 + sample_bits(
                    enc_state(samples.take(k)),
                    k,
                    samples[k].0,
                    samples[k].1,
                ).len()
            } by {
                lemma_in_sync_sample(*old(self), samples);
            }
        }
        {
            match self.br.read_uvarint() {
                Ok(t_delta) => {
                    self.t_delta = t_delta;
                },
                Err(e) => {
                    self.err = Some(e);
                    proof {
                        assert forall|samples: Seq<(i64, u64)>|
                            old(self).in_sync(samples) implies false by {
                            let (ts, vs) = samples[k];
                            lemma_bits_at_split(
                                s,
                                p0,
                                uvarint_bits(ts_delta(ts, st0.t)),
                                xor_bits(st0.v, st0.leading, st0.trailing, vs),
                            );
                            lemma_uvarint_round_trip(s, p0, ts_delta(ts, st0.t));
                        }
                    }
                    return None;
                },
            }
            self.t = self.t.wrapping_add(self.t_delta as i64);
            proof {
                assert forall|samples: Seq<(i64, u64)>| old(self).in_sync(samples) implies {
                    let (ts, vs) = samples[k];
                    &&& self.t == ts
                    &&& self.t_delta == ts_delta(ts, st0.t)
                    &&& self.br.pos() == p0 + uvarint_bits(ts_delta(ts, st0.t)).len()
                    &&& bits_at(
                        s,
                        self.br.pos(),
                        xor_bits(st0.v, st0.leading, st0.trailing, vs),
                    )
                } by {
                    let (ts, vs) = samples[k];
                    lemma_bits_at_split(
                        s,
                        p0,
                        uvarint_bits(ts_delta(ts, st0.t)),
                        xor_bits(st0.v, st0.leading, st0.trailing, vs),
                    );
                    lemma_uvarint_round_trip(s, p0, ts_delta(ts, st0.t));
                    lemma_wrap_recover_t(st0.t, ts);
                }
            }
            let ghost pre_rv = *self;
            let r = self.read_value();
            proof {
                assert forall|samples: Seq<(i64, u64)>| old(self).in_sync(samples) implies {
                    &&& r == Some(samples[k])
                    &&& self.in_sync(samples)
                } by {
                    let (ts, vs) = samples[k];
                    assert(bits_at(
                        pre_rv.sbits_(),
                        pre_rv.pos_(),
                        xor_bits(
                            pre_rv.dec_state().v,
                            pre_rv.dec_state().leading,
                            pre_rv.dec_state().trailing,
                            vs,
                        ),
                    ));
                }
            }
            return r;
        }
    }

    /// Decodes a later sample: a self-describing delta-of-delta code,
    /// then the XOR-coded value.  The width prefix is scanned bit by
    /// bit, stopping at the first zero.
    #[verifier::rlimit(100)]
    fn next_steady(&mut self) -> (r: Option<(i64, u64)>)
        requires
            old(self).wf(),
            old(self).err_() is None,
            old(self).nread() >= 2,
            old(self).nread() < old(self).ntotal(),
        ensures
            Self::step_post(*old(self), *final(self), r),
    {
        let ghost s = self.br.sbits();
        let ghost k = self.num_read as int;
        let ghost st0 = self.dec_state();
        let ghost p0 = self.br.pos();
        proof {
            assert forall|samples: Seq<(i64, u64)>| old(self).in_sync(samples) implies {
                &&& k < samples.len()
                &&& st0 == enc_state(samples.take(k))
                &&& bits_at(
                    s,
                    p0,
                    sample_bits(enc_state(samples.take(k)), k, samples[k].0, samples[k].1),
                )
                &&& enc_state(samples.take(k + 1)) == sample_next(
                    enc_state(samples.take(k)),
                    k,
                    samples[k].0,
                    samples[k].1,
                )
                &&& 16 + chunk_body_bits(samples.take(k + 1)).len() == p0 + sample_bits(
                    enc_state(samples.take(k)),
                    k,
                    samples[k].0,
                    samples[k].1,
                ).len()
            } by {
                lemma_in_sync_sample(*old(self), samples);
            }
        }
        let dod = match self.read_dod() {
            Ok(d) => d,
            Err(e) => {
                self.err = Some(e);
                proof {
                    assert forall|samples: Seq<(i64, u64)>|
                        old(self).in_sync(samples) implies false by {
                        let (ts, vs) = samples[k];
                        let dod_s = dod_of(ts_delta(ts, st0.t), st0.t_delta);
                        lemma_bits_at_split(
                            s,
                            p0,
                            dod_bits(dod_s),
                            xor_bits(st0.v, st0.leading, st0.trailing, vs),
                        );
                        assert(bits_at(s, p0, dod_bits(dod_s)));
                    }
                }
                return None;
            },
        };
        proof {
            assert forall|samples: Seq<(i64, u64)>| old(self).in_sync(samples) implies {
                let (ts, vs) = samples[k];
                let dod_s = dod_of(ts_delta(ts, st0.t), st0.t_delta);
                &&& dod == dod_s
                &&& self.br.pos() == p0 + dod_bits(dod_s).len()
                &&& bits_at(s, self.br.pos(), xor_bits(st0.v, st0.leading, st0.trailing, vs))
            } by {
                let (ts, vs) = samples[k];
                let dod_s = dod_of(ts_delta(ts, st0.t), st0.t_delta);
                lemma_bits_at_split(
                    s,
                    p0,
                    dod_bits(dod_s),
                    xor_bits(st0.v, st0.leading, st0.trailing, vs),
                );
                assert(bits_at(s, p0, dod_bits(dod_s)));
            }
        }
        self.t_delta = self.t_delta.wrapping_add(dod as u64);
        self.t = self.t.wrapping_add(self.t_delta as i64);
        proof {
            assert forall|samples: Seq<(i64, u64)>| old(self).in_sync(samples) implies {
                let (ts, vs) = samples[k];
                &&& self.t == ts
                &&& self.t_delta == ts_delta(ts, st0.t)
                &&& bits_at(s, self.br.pos(), xor_bits(st0.v, st0.leading, st0.trailing, vs))
            } by {
                let (ts, vs) = samples[k];
                lemma_wrap_recover_td(st0.t_delta, ts_delta(ts, st0.t));
                lemma_i64_u64_roundtrip(dod_of(ts_delta(ts, st0.t), st0.t_delta));
                lemma_wrap_recover_t(st0.t, ts);
            }
        }
        let ghost pre_rv = *self;
        let r = self.read_value();
        proof {
            assert forall|samples: Seq<(i64, u64)>| old(self).in_sync(samples) implies {
                &&& r == Some(samples[k])
                &&& self.in_sync(samples)
            } by {
                let (ts, vs) = samples[k];
                assert(bits_at(
                    pre_rv.sbits_(),
                    pre_rv.pos_(),
                    xor_bits(
                        pre_rv.dec_state().v,
                        pre_rv.dec_state().leading,
                        pre_rv.dec_state().trailing,
                        vs,
                    ),
                ));
            }
        }
        r
    }

    /// Reads one self-describing delta-of-delta code: a bounded prefix
    /// scan of at most four bits selects a payload width in 0, 14, 17,
    /// 20 or 64 bits, and narrow payloads are re-signed.
    #[verifier::rlimit(100)]
    fn read_dod(&mut self) -> (r: Result<i64, Error>)
        requires
            old(self).wf(),
        ensures
            final(self).wf(),
            final(self).br.sbits() == old(self).br.sbits(),
            final(self).num_total == old(self).num_total,
            final(self).num_read == old(self).num_read,
            final(self).t == old(self).t,
            final(self).val == old(self).val,
            final(self).leading == old(self).leading,
            final(self).trailing == old(self).trailing,
            final(self).t_delta == old(self).t_delta,
            final(self).err == old(self).err,
            forall|dod_s: i64|
                bits_at(old(self).br.sbits(), old(self).br.pos(), #[trigger] dod_bits(dod_s))
                    ==> r == Ok::<i64, Error>(dod_s) && final(self).br.pos() == old(self).br.pos()
                    + dod_bits(dod_s).len(),
    {
        let ghost s = self.br.sbits();
        let ghost p0 = self.br.pos();
        proof {
            lemma_prefix_bits();
        }
        let mut d: u8 = 0;
        let mut sz: u8 = 0;
        let mut dod: i64 = 0;
        let b0 = match self.read_bit_or_fast() {
            Ok(b) => b,
            Err(e) => {
                proof {
                    assert forall|dod_s: i64| bits_at(s, p0, #[trigger] dod_bits(dod_s)) implies
                        false by {
                        assert(dod_bits(dod_s).len() >= 1);
                    }
                }
                return Err(e);
            },
        };
        if !b0 {
            d = 0b0;
            proof {
                assert forall|dod_s: i64| bits_at(s, p0, #[trigger] dod_bits(dod_s)) implies {
                    &&& 0i64 == dod_s
                    &&& self.br.pos() == p0 + dod_bits(dod_s).len()
                } by {
                    assert(dod_bits(dod_s)[0] == s[p0]);
                }
            }
        } else {
            let b1 = match self.read_bit_or_fast() {
                Ok(b) => b,
                Err(e) => {
                    proof {
                        assert forall|dod_s: i64| bits_at(s, p0, #[trigger] dod_bits(dod_s)) implies
                            false by {
                            assert(dod_bits(dod_s)[0] == s[p0]);
                            assert(dod_s != 0);
                            assert(dod_bits(dod_s).len() >= 16);
                        }
                    }
                    return Err(e);
                },
            };
            if !b1 {
                d = 0b10;
            } else {
                let b2 = match self.read_bit_or_fast() {
                    Ok(b) => b,
                    Err(e) => {
                        proof {
                            assert forall|dod_s: i64|
                                bits_at(s, p0, #[trigger] dod_bits(dod_s)) implies false by {
                                assert(dod_bits(dod_s)[0] == s[p0]);
                                assert(dod_bits(dod_s)[1] == s[p0 + 1]);
                                assert(dod_s != 0 && !in_bit_range(dod_s, 14));
                                assert(dod_bits(dod_s).len() >= 20);
                            }
                        }
                        return Err(e);
                    },
                };
                if !b2 {
                    d = 0b110;
                } else {
                    let b3 = match self.read_bit_or_fast() {
                        Ok(b) => b,
                        Err(e) => {
                            proof {
                                assert forall|dod_s: i64|
                                    bits_at(s, p0, #[trigger] dod_bits(dod_s)) implies false by {
                                    assert(dod_bits(dod_s)[0] == s[p0]);
                                    assert(dod_bits(dod_s)[1] == s[p0 + 1]);
                                    assert(dod_bits(dod_s)[2] == s[p0 + 2]);
                                    assert(dod_s != 0 && !in_bit_range(dod_s, 14)
                                        && !in_bit_range(dod_s, 17));
                                    assert(dod_bits(dod_s).len() >= 24);
                                }
                            }
                            return Err(e);
                        },
                    };
                    if !b3 {
                        d = 0b1110;
                    } else {
                        d = 0b1111;
                    }
                }
            }
        }
        match d {
            0b0 => (),
            0b10 => {
                sz = 14;
            },
            0b110 => {
                sz = 17;
            },
            0b1110 => {
                sz = 20;
            },
            0b1111 => {
                // the full field is unlikely to sit in the lookahead word
                match self.br.read_bits(64) {
                    Ok(bits) => {
                        dod = bits as i64;
                        proof {
                            assert forall|dod_s: i64|
                                bits_at(s, p0, #[trigger] dod_bits(dod_s)) implies {
                                &&& dod == dod_s
                                &&& self.br.pos() == p0 + dod_bits(dod_s).len()
                            } by {
                                assert(dod_bits(dod_s)[0] == s[p0]);
                                assert(dod_bits(dod_s)[1] == s[p0 + 1]);
                                assert(dod_bits(dod_s)[2] == s[p0 + 2]);
                                assert(dod_bits(dod_s)[3] == s[p0 + 3]);
                                assert(dod_s != 0 && !in_bit_range(dod_s, 14) && !in_bit_range(
                                    dod_s,
                                    17,
                                ) && !in_bit_range(dod_s, 20));
                                lemma_bits_at_split(
                                    s,
                                    p0,
                                    bits_of(0b1111, 4),
                                    bits_of(dod_s as u64, 64),
                                );
                                lemma_bits_of_val(dod_s as u64, 64);
                                lemma2_to64_rest();
                                lemma_small_mod((dod_s as u64) as nat, pow2(64));
                                lemma_i64_u64_roundtrip(dod_s);
                            }
                        }
                    },
                    Err(e) => {
                        proof {
                            assert forall|dod_s: i64|
                                bits_at(s, p0, #[trigger] dod_bits(dod_s)) implies false by {
                                assert(dod_bits(dod_s)[0] == s[p0]);
                                assert(dod_bits(dod_s)[1] == s[p0 + 1]);
                                assert(dod_bits(dod_s)[2] == s[p0 + 2]);
                                assert(dod_bits(dod_s)[3] == s[p0 + 3]);
                                assert(dod_s != 0 && !in_bit_range(dod_s, 14) && !in_bit_range(
                                    dod_s,
                                    17,
                                ) && !in_bit_range(dod_s, 20));
                                assert(dod_bits(dod_s).len() == 68);
                            }
                        }
                        return Err(e);
                    },
                }
            },
            _ => {},
        }
        if sz != 0 {
            match self.read_bits_or_fast(sz) {
                Ok(bits_raw) => {
                    let mut bits = bits_raw;
                    if bits > (1u64 << ((sz - 1) as u64)) {
                        bits = bits.wrapping_sub(1u64 << (sz as u64));
                    }
                    dod = bits as i64;
                    proof {
                        assert forall|dod_s: i64|
                            bits_at(s, p0, #[trigger] dod_bits(dod_s)) implies {
                            &&& dod == dod_s
                            &&& self.br.pos() == p0 + dod_bits(dod_s).len()
                        } by {
                            assert(dod_bits(dod_s)[0] == s[p0]);
                            assert(dod_bits(dod_s)[1] == s[p0 + 1]);
                            if sz >= 17 {
                                assert(dod_bits(dod_s)[2] == s[p0 + 2]);
                            }
                            if sz == 20 {
                                assert(dod_bits(dod_s)[3] == s[p0 + 3]);
                            }
                            assert(dod_s != 0);
                            if sz == 14 {
                                assert(in_bit_range(dod_s, 14));
                                lemma_bits_at_split(
                                    s,
                                    p0,
                                    bits_of(0b10, 2),
                                    bits_of(dod_s as u64, 14),
                                );
                                lemma_bits_of_val(dod_s as u64, 14);
                            } else if sz == 17 {
                                assert(!in_bit_range(dod_s, 14) && in_bit_range(dod_s, 17));
                                lemma_bits_at_split(
                                    s,
                                    p0,
                                    bits_of(0b110, 3),
                                    bits_of(dod_s as u64, 17),
                                );
                                lemma_bits_of_val(dod_s as u64, 17);
                            } else {
                                assert(!in_bit_range(dod_s, 14) && !in_bit_range(dod_s, 17)
                                    && in_bit_range(dod_s, 20));
                                lemma_bits_at_split(
                                    s,
                                    p0,
                                    bits_of(0b1110, 4),
                                    bits_of(dod_s as u64, 20),
                                );
                                lemma_bits_of_val(dod_s as u64, 20);
                            }
                            lemma_dod_resign(dod_s, bits_raw, sz as u64);
                        }
                    }
                },
                Err(e) => {
                    proof {
                        assert forall|dod_s: i64| bits_at(s, p0, #[trigger] dod_bits(dod_s)) implies
                            false by {
                            assert(dod_bits(dod_s)[0] == s[p0]);
                            assert(dod_bits(dod_s)[1] == s[p0 + 1]);
                            if sz >= 17 {
                                assert(dod_bits(dod_s)[2] == s[p0 + 2]);
                            }
                            if sz == 20 {
                                assert(dod_bits(dod_s)[3] == s[p0 + 3]);
                            }
                            assert(dod_s != 0);
                            assert(dod_bits(dod_s).len() >= sz + 2);
                        }
                    }
                    return Err(e);
                },
            }
        }
        Ok(dod)
    }

    /// In the fresh-window arm of the value code, the two field reads
    /// return the clamped leading count and the width the encoder wrote.
    proof fn lemma_fresh_window_fields(
        &self,
        s: Seq<bool>,
        p0: int,
        prev: u64,
        l0: u8,
        t0: u8,
        v: u64,
        bits5: u64,
        mbits_raw: u64,
    )
        requires
            bits_at(s, p0, xor_bits(prev, l0, t0, v)),
            s == self.br.sbits(),
            self.br.wf(),
            self.br.pos() == p0 + 13,
            s[p0],
            s[p0 + 1],
            bits5 as nat == bits_val(s.subrange(p0 + 2, p0 + 7)),
            mbits_raw as nat == bits_val(s.subrange(p0 + 7, p0 + 13)),
        ensures
            v ^ prev != 0,
            ({
                let x = v ^ prev;
                let lead = clamp_leading(x);
                let trail = u64_trailing_zeros(x) as u8;
                &&& !(l0 != WINDOW_UNSET && lead >= l0 && trail >= t0)
                &&& bits5 == lead
                &&& mbits_raw as int == (64 - lead - trail) % 64
                &&& bits_at(s, p0 + 13, bits_of(x >> (trail as u64), 64 - lead - trail))
                &&& xor_bits(prev, l0, t0, v).len() == 13 + 64 - lead - trail
            }),
    {
        let piece = xor_bits(prev, l0, t0, v);
        assert(piece[0] == s[p0]);
        assert(piece[1] == s[p0 + 1]);
        let x = v ^ prev;
        let lead = clamp_leading(x);
        let trail = u64_trailing_zeros(x) as u8;
        lemma_lz_tz(x);
        let a = bits_of(lead as u64, 5);
        let b = bits_of((64 - lead - trail) as u64, 6);
        let c = bits_of(x >> (trail as u64), 64 - lead - trail);
        assert(piece == seq![true, true] + a + b + c);
        lemma_bits_at_split(s, p0, seq![true, true] + a + b, c);
        lemma_bits_at_split(s, p0, seq![true, true] + a, b);
        lemma_bits_at_split(s, p0, seq![true, true], a);
        assert(s.subrange(p0 + 2, p0 + 7) == a);
        assert(s.subrange(p0 + 7, p0 + 13) == b);
        lemma_bits_of_val(lead as u64, 5);
        lemma_bits_of_val((64 - lead - trail) as u64, 6);
        lemma2_to64();
        lemma_small_mod(lead as nat, pow2(5));
        assert(bits5 == lead);
        assert(mbits_raw as nat == ((64 - lead - trail) as u64 as nat) % pow2(6));
    }
}

/// Whether `x` can be represented in `nbits` bits by the asymmetric
/// signed rule.
fn bit_range(x: i64, nbits: u8) -> (r: bool)
    requires
        2 <= nbits <= 21,
    ensures
        r == in_bit_range(x, nbits),
{
    proof {
        let sh = (nbits - 1) as u64;
        assert(0 < (1i64 << sh) < 0x20_0000) by (bit_vector)
            requires
                sh < 21,
        ;
    }
    -((1i64 << (nbits - 1)) - 1) <= x && x <= 1i64 << (nbits - 1)
}

} // verus!
