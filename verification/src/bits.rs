//! Mathematical model of a most-significant-bit-first bitstream, and the
//! trusted boundary to the `bitvec_helpers` reader and writer that carry the
//! actual bits.

use vstd::prelude::*;

use crate::MetadataError;
use bitvec_helpers::bitstream_io_reader::BsIoVecReader;
use bitvec_helpers::bitstream_io_writer::BitstreamIoWriter;

verus! {

pub open spec fn pow2(n: nat) -> nat
    decreases n,
{
    if n == 0 {
        1
    } else {
        2 * pow2((n - 1) as nat)
    }
}

/// The `n`-bit big-endian (most significant bit first) representation of `v`.
pub open spec fn be_bits(v: nat, n: nat) -> Seq<bool>
    decreases n,
{
    if n == 0 {
        Seq::empty()
    } else {
        be_bits(v / 2, (n - 1) as nat).push(v % 2 == 1)
    }
}

/// The value of a big-endian bit string.
pub open spec fn be_val(s: Seq<bool>) -> nat
    decreases s.len(),
{
    if s.len() == 0 {
        0
    } else {
        2 * be_val(s.drop_last()) + (if s.last() {
            1nat
        } else {
            0nat
        })
    }
}

pub open spec fn zero_bits(n: nat) -> Seq<bool> {
    Seq::new(n, |i: int| false)
}

/// A byte sequence seen as a bit stream, each byte most significant bit first.
pub open spec fn bits_of_bytes(b: Seq<u8>) -> Seq<bool>
    decreases b.len(),
{
    if b.len() == 0 {
        Seq::empty()
    } else {
        be_bits(b[0] as nat, 8) + bits_of_bytes(b.drop_first())
    }
}

pub proof fn lemma_pow2_64()
    ensures
        pow2(64) == 0x10000000000000000,
        pow2(63) == 0x8000000000000000,
{
    reveal_with_fuel(pow2, 65);
}

pub proof fn lemma_pow2_pos(n: nat)
    ensures
        pow2(n) >= 1,
    decreases n,
{
    if n > 0 {
        lemma_pow2_pos((n - 1) as nat);
    }
}

pub proof fn lemma_pow2_mono(i: nat, j: nat)
    requires
        i <= j,
    ensures
        pow2(i) <= pow2(j),
    decreases j,
{
    if i < j {
        lemma_pow2_mono(i, (j - 1) as nat);
        lemma_pow2_pos((j - 1) as nat);
    }
}

pub proof fn lemma_be_bits_len(v: nat, n: nat)
    ensures
        be_bits(v, n).len() == n,
    decreases n,
{
    if n > 0 {
        lemma_be_bits_len(v / 2, (n - 1) as nat);
    }
}

pub proof fn lemma_be_val_be_bits(v: nat, n: nat)
    requires
        v < pow2(n),
    ensures
        be_val(be_bits(v, n)) == v,
    decreases n,
{
    if n > 0 {
        lemma_be_bits_len(v / 2, (n - 1) as nat);
        lemma_be_val_be_bits(v / 2, (n - 1) as nat);
        let s = be_bits(v, n);
        lemma_be_bits_len(v, n);
        assert(s.drop_last() =~= be_bits(v / 2, (n - 1) as nat));
        assert(s.last() == (v % 2 == 1));
    }
}

pub proof fn lemma_be_bits_be_val(s: Seq<bool>)
    ensures
        be_bits(be_val(s), s.len()) == s,
    decreases s.len(),
{
    if s.len() > 0 {
        lemma_be_bits_be_val(s.drop_last());
        let v = be_val(s);
        assert(v / 2 == be_val(s.drop_last()));
        assert(v % 2 == 1 <==> s.last());
        assert(be_bits(v, s.len()) =~= s);
    }
}

pub proof fn lemma_be_val_bound(s: Seq<bool>)
    ensures
        be_val(s) < pow2(s.len()),
    decreases s.len(),
{
    if s.len() > 0 {
        lemma_be_val_bound(s.drop_last());
    }
}

pub proof fn lemma_be_bits_zero(n: nat)
    ensures
        be_bits(0, n) == zero_bits(n),
    decreases n,
{
    if n > 0 {
        lemma_be_bits_zero((n - 1) as nat);
        lemma_be_bits_len(0, n);
        assert(be_bits(0, n) =~= zero_bits(n));
    }
}

/// Number of binary digits of `m`; 1 for 0 and 1.
pub open spec fn bit_len(m: nat) -> nat
    decreases m,
{
    if m <= 1 {
        1
    } else {
        1 + bit_len(m / 2)
    }
}

/// The unsigned exponential-Golomb code of `v`: `k` zero bits followed by the
/// `k + 1`-bit binary form of `v + 1`, where `k + 1` is the bit length of `v + 1`.
pub open spec fn golomb_bits(v: nat) -> Seq<bool> {
    zero_bits((bit_len(v + 1) - 1) as nat) + be_bits(v + 1, bit_len(v + 1))
}

pub open spec fn golomb_len(v: nat) -> nat {
    (2 * bit_len(v + 1) - 1) as nat
}

pub proof fn lemma_bit_len_bounds(m: nat)
    requires
        m >= 1,
    ensures
        pow2((bit_len(m) - 1) as nat) <= m < pow2(bit_len(m)),
    decreases m,
{
    if m > 1 {
        lemma_bit_len_bounds(m / 2);
    }
}

pub proof fn lemma_golomb_bits_len(v: nat)
    ensures
        golomb_bits(v).len() == golomb_len(v),
{
    lemma_be_bits_len(v + 1, bit_len(v + 1));
}

/// Splitting off the leading one bit of a binary representation.
pub proof fn lemma_be_bits_high(rem: nat, k: nat)
    requires
        rem < pow2(k),
    ensures
        be_bits(pow2(k) + rem, (k + 1) as nat) == seq![true] + be_bits(rem, k),
    decreases k,
{
    lemma_be_bits_len(pow2(k) + rem, k + 1);
    lemma_be_bits_len(rem, k);
    if k == 0 {
        assert(be_bits(1, 1) =~= seq![true] + be_bits(0, 0));
    } else {
        assert(pow2(k) == 2 * pow2((k - 1) as nat));
        assert((pow2(k) + rem) / 2 == pow2((k - 1) as nat) + rem / 2);
        assert((pow2(k) + rem) % 2 == rem % 2);
        lemma_be_bits_high(rem / 2, (k - 1) as nat);
        assert(be_bits(pow2(k) + rem, (k + 1) as nat) =~= seq![true] + be_bits(rem, k));
    }
}

/// Offset of the first set bit at or after `pos`, if any.
pub open spec fn first_one(bits: Seq<bool>, pos: nat) -> Option<nat>
    decreases bits.len() - pos,
{
    if pos >= bits.len() {
        None
    } else if bits[pos as int] {
        Some(0nat)
    } else {
        match first_one(bits, pos + 1) {
            Some(k) => Some((k + 1) as nat),
            None => None,
        }
    }
}

pub proof fn lemma_first_one_props(bits: Seq<bool>, pos: nat)
    requires
        pos <= bits.len(),
    ensures
        match first_one(bits, pos) {
            Some(k) => pos + k < bits.len() && bits[(pos + k) as int] && (forall|i: int|
                pos <= i < pos + k ==> !bits[i]),
            None => forall|i: int| pos <= i < bits.len() ==> !bits[i],
        },
    decreases bits.len() - pos,
{
    if pos < bits.len() && !bits[pos as int] {
        lemma_first_one_props(bits, pos + 1);
    }
}

pub proof fn lemma_first_one_at(bits: Seq<bool>, pos: nat, k: nat)
    requires
        pos + k < bits.len(),
        forall|i: int| pos <= i < pos + k ==> !bits[i],
        bits[(pos + k) as int],
    ensures
        first_one(bits, pos) == Some(k),
    decreases k,
{
    if k > 0 {
        lemma_first_one_at(bits, (pos + 1) as nat, (k - 1) as nat);
    }
}

/// The value and end position of the exponential-Golomb code at `pos`, if one
/// lies there.
pub open spec fn spec_parse_ue(bits: Seq<bool>, pos: nat) -> Option<(nat, nat)> {
    match first_one(bits, pos) {
        None => None,
        Some(k) => if pos + 2 * k + 1 <= bits.len() {
            Some(
                (
                    (pow2(k) - 1 + be_val(
                        bits.subrange((pos + k + 1) as int, (pos + 2 * k + 1) as int),
                    )) as nat,
                    (pos + 2 * k + 1) as nat,
                ),
            )
        } else {
            None
        },
    }
}

/// An exponential-Golomb code parses back to the value it encodes, wherever it
/// stands in a stream.
pub proof fn lemma_parse_ue_golomb(bits: Seq<bool>, pos: nat, v: nat)
    requires
        pos + golomb_len(v) <= bits.len(),
        bits.subrange(pos as int, (pos + golomb_len(v)) as int) == golomb_bits(v),
    ensures
        spec_parse_ue(bits, pos) == Some((v, (pos + golomb_len(v)) as nat)),
{
    let k = (bit_len(v + 1) - 1) as nat;
    lemma_bit_len_bounds(v + 1);
    let rem = (v + 1 - pow2(k)) as nat;
    lemma_be_bits_high(rem, k);
    lemma_be_bits_len(rem, k);
    let g = golomb_bits(v);
    lemma_golomb_bits_len(v);
    assert(g =~= zero_bits(k) + (seq![true] + be_bits(rem, k)));
    assert forall|i: int| pos <= i < pos + k implies !bits[i] by {
        assert(bits[i] == g[i - pos]);
        assert(g[i - pos] == zero_bits(k)[i - pos]);
    }
    assert(bits[(pos + k) as int] == g[k as int]);
    assert(g[k as int]);
    lemma_first_one_at(bits, pos, k);
    let tail = bits.subrange((pos + k + 1) as int, (pos + 2 * k + 1) as int);
    assert forall|i: int| 0 <= i < k implies tail[i] == be_bits(rem, k)[i] by {
        assert(tail[i] == bits[pos + k + 1 + i]);
        assert(bits[pos + k + 1 + i] == g[k + 1 + i]);
    }
    assert(tail =~= be_bits(rem, k));
    lemma_be_val_be_bits(rem, k);
    assert(pow2(k) - 1 + be_val(tail) == v);
}

// ---------- trusted boundary to bitvec_helpers ----------

#[verifier::external_type_specification]
#[verifier::external_body]
pub struct ExBitstreamIoWriter(BitstreamIoWriter);

/// Holds the `bitvec_helpers` reader. Its type's generic parameter is bounded
/// by `std::io` traits that cannot be declared to the verifier, so the value
/// is kept opaque and only the trusted methods below touch it.
#[verifier::external_body]
struct RawReader {
    inner: BsIoVecReader,
}

/// A bit writer, modelled by the bit string written so far.
pub struct BitstreamWriter {
    inner: BitstreamIoWriter,
    bits: Ghost<Seq<bool>>,
}

/// Relies on `BitstreamIoWriter::with_capacity`: a fresh writer holds no bits.
#[verifier::external_body]
fn raw_writer(capacity: usize) -> BitstreamIoWriter {
    BitstreamIoWriter::with_capacity(capacity)
}

impl BitstreamWriter {
    /// The bit string written so far.
    pub closed spec fn bits(&self) -> Seq<bool> {
        self.bits@
    }

    /// A fresh writer, holding no bits yet.
    pub fn with_capacity(capacity: usize) -> (r: Self)
        ensures
            r.bits() == Seq::<bool>::empty(),
    {
        BitstreamWriter { inner: raw_writer(capacity), bits: Ghost(Seq::empty()) }
    }

    /// Relies on `BitstreamIoWriter::write_var::<u64>`: appends the `n`-bit
    /// big-endian form of `v`; writing to the backing vector cannot fail, and
    /// `v` fits in `n` bits by the precondition.
    #[verifier::external_body]
    pub fn write_var64(&mut self, v: u64, n: u32)
        requires
            1 <= n <= 64,
            (v as nat) < pow2(n as nat),
        ensures
            final(self).bits() == old(self).bits() + be_bits(v as nat, n as nat),
    {
        self.inner.write_var::<u64>(n, v).unwrap();
    }

    /// Relies on `BitstreamIoWriter::write_bit`: appends one bit.
    #[verifier::external_body]
    pub fn write_bit(&mut self, b: bool)
        ensures
            final(self).bits() == old(self).bits().push(b),
    {
        self.inner.write_bit(b).unwrap();
    }

    /// Relies on `BitstreamIoWriter::byte_aligned`: whether the number of bits
    /// written so far is a multiple of eight.
    #[verifier::external_body]
    pub fn byte_aligned(&self) -> (r: bool)
        ensures
            r == (self.bits().len() % 8 == 0),
    {
        self.inner.byte_aligned()
    }

    /// Relies on `BitstreamIoWriter::into_inner`: hands out the written bytes;
    /// exact only when the writer is byte aligned, which the precondition asks.
    #[verifier::external_body]
    pub fn into_inner(self) -> (r: Vec<u8>)
        requires
            self.bits().len() % 8 == 0,
        ensures
            bits_of_bytes(r@) == self.bits(),
    {
        self.inner.into_inner()
    }
}

/// A bit reader over an owned byte buffer, modelled by the full input bit
/// string and the read position.
pub struct BitstreamReader {
    inner: RawReader,
    bits: Ghost<Seq<bool>>,
    pos: Ghost<nat>,
}

/// Relies on `BsIoVecReader::from_vec`: reading starts at the first bit of
/// the buffer.
#[verifier::external_body]
fn raw_reader(data: Vec<u8>) -> RawReader {
    RawReader { inner: BsIoVecReader::from_vec(data) }
}

impl BitstreamReader {
    /// The full input bit string.
    pub closed spec fn bits(&self) -> Seq<bool> {
        self.bits@
    }

    /// The current read position, in bits from the start of the input.
    pub closed spec fn pos(&self) -> nat {
        self.pos@
    }

    /// A reader over the given bytes, standing at the first bit.
    pub fn from_vec(data: Vec<u8>) -> (r: Self)
        ensures
            r.bits() == bits_of_bytes(data@),
            r.pos() == 0,
    {
        let ghost b = bits_of_bytes(data@);
        BitstreamReader { inner: raw_reader(data), bits: Ghost(b), pos: Ghost(0nat) }
    }

    /// Relies on `BitstreamIoReader::read_bit`: returns the bit at the read
    /// position and advances by one; cannot fail while a bit remains.
    #[verifier::external_body]
    pub fn read_bit(&mut self) -> (r: bool)
        requires
            old(self).pos() < old(self).bits().len(),
        ensures
            final(self).bits() == old(self).bits(),
            final(self).pos() == old(self).pos() + 1,
            r == old(self).bits()[old(self).pos() as int],
    {
        self.inner.inner.read_bit().unwrap()
    }

    /// Relies on `BitstreamIoReader::read_var::<u64>` with big-endian order:
    /// reads `n` bits, most significant first; cannot fail while `n` bits
    /// remain and `n` is at most 64.
    #[verifier::external_body]
    pub fn read_var64(&mut self, n: u32) -> (r: u64)
        requires
            1 <= n <= 64,
            old(self).pos() + n <= old(self).bits().len(),
        ensures
            final(self).bits() == old(self).bits(),
            final(self).pos() == old(self).pos() + n,
            r as nat == be_val(
                old(self).bits().subrange(old(self).pos() as int, (old(self).pos() + n) as int),
            ),
    {
        self.inner.inner.read_var::<u64>(n).unwrap()
    }

    /// Relies on `BitstreamIoReader::byte_aligned`: whether the read position
    /// is a multiple of eight bits.
    #[verifier::external_body]
    pub fn byte_aligned(&self) -> (r: bool)
        ensures
            r == (self.pos() % 8 == 0),
    {
        self.inner.inner.byte_aligned()
    }

    /// Relies on `BitstreamIoReader::available`: the number of bits left to
    /// read; position queries on an in-memory cursor cannot fail.
    #[verifier::external_body]
    pub fn available(&mut self) -> (r: u64)
        requires
            old(self).pos() <= old(self).bits().len(),
        ensures
            final(self).bits() == old(self).bits(),
            final(self).pos() == old(self).pos(),
            r as nat == old(self).bits().len() - old(self).pos(),
    {
        self.inner.inner.available().unwrap()
    }
}

// ---------- verified exponential-Golomb codec over the primitives ----------

/// `pow2` as an executable value.
pub fn pow2_u64(k: u32) -> (r: u64)
    requires
        k <= 63,
    ensures
        r as nat == pow2(k as nat),
{
    let mut p: u64 = 1;
    let mut i: u32 = 0;
    while i < k
        invariant
            i <= k <= 63,
            p as nat == pow2(i as nat),
        decreases k - i,
    {
        proof {
            lemma_pow2_mono((i + 1) as nat, 63);
            lemma_pow2_64();
        }
        p = p * 2;
        i = i + 1;
    }
    p
}

/// Write an unsigned exponential-Golomb code.
///
/// The underlying bit primitives are called; only the composition into the
/// code is computed here, and it is verified against `golomb_bits`.
pub fn write_ue(w: &mut BitstreamWriter, v: u64)
    requires
        v < u64::MAX,
    ensures
        final(w).bits() == old(w).bits() + golomb_bits(v as nat),
{
    let m: u64 = v + 1;
    let ghost mnat: nat = m as nat;
    let mut tmp: u64 = m;
    let mut bl: u32 = 0;
    while tmp > 0
        invariant
            mnat == m as nat,
            mnat >= 1,
            tmp > 0 ==> bit_len(mnat) == bl + bit_len(tmp as nat),
            tmp == 0 ==> bit_len(mnat) == bl,
            bl <= 64,
            tmp <= mnat,
        decreases tmp,
    {
        proof {
            if tmp == 1 {
            } else {
                assert(bit_len(tmp as nat) == 1 + bit_len((tmp / 2) as nat));
            }
            assert(bl < 64) by {
                if bl >= 64 {
                    lemma_bit_len_bounds(mnat);
                    assert(bit_len(mnat) >= 65);
                    lemma_pow2_mono(64, (bit_len(mnat) - 1) as nat);
                    lemma_pow2_64();
                }
            }
        }
        tmp = tmp / 2;
        bl = bl + 1;
    }
    proof {
        assert(bit_len(mnat) == bl);
        lemma_bit_len_bounds(mnat);
        assert(bl <= 64) by {
            if bl >= 65 {
                lemma_pow2_mono(64, (bl - 1) as nat);
                lemma_pow2_64();
            }
        }
    }
    let k: u32 = bl - 1;
    let ghost start: Seq<bool> = w.bits();
    if k > 0 {
        proof {
            lemma_pow2_pos(k as nat);
        }
        w.write_var64(0, k);
        proof {
            lemma_be_bits_zero(k as nat);
        }
    }
    w.write_var64(m, bl);
    proof {
        assert(final(w).bits() =~= start + golomb_bits(v as nat));
    }
}

/// Read an unsigned exponential-Golomb code.
///
/// Succeeds exactly when a code lies at the read position whose value fits in
/// 64 bits; a malformed or truncated stream is reported, never consumed past.
pub fn read_ue(r: &mut BitstreamReader) -> (res: Result<u64, MetadataError>)
    requires
        old(r).pos() <= old(r).bits().len(),
    ensures
        final(r).bits() == old(r).bits(),
        final(r).pos() <= final(r).bits().len(),
        match res {
            Ok(v) => spec_parse_ue(old(r).bits(), old(r).pos()) == Some(
                (v as nat, final(r).pos()),
            ),
            Err(e) => e == MetadataError::MalformedStream && match spec_parse_ue(
                old(r).bits(),
                old(r).pos(),
            ) {
                Some(p) => p.0 + 1 >= pow2(64),
                None => true,
            },
        },
{
    let ghost bits: Seq<bool> = r.bits();
    let ghost pos0: nat = r.pos();
    let mut k: u32 = 0;
    loop
        invariant_except_break
            r.pos() == pos0 + k,
            pos0 + k <= bits.len(),
        invariant
            r.bits() == bits,
            bits == old(r).bits(),
            pos0 == old(r).pos(),
            pos0 <= bits.len(),
            k <= 63,
            forall|i: int| pos0 <= i < pos0 + k ==> !bits[i],
        ensures
            r.pos() == pos0 + k + 1,
            pos0 + k < bits.len(),
            bits[(pos0 + k) as int],
        decreases bits.len() - r.pos(),
    {
        let avail = r.available();
        if avail == 0 {
            proof {
                lemma_first_one_props(bits, pos0);
            }
            return Err(MetadataError::MalformedStream);
        }
        let b = r.read_bit();
        if b {
            break ;
        }
        if k == 63 {
            // 64 zero bits seen: any code here is beyond the 64-bit range
            proof {
                lemma_first_one_props(bits, pos0);
                if first_one(bits, pos0) is Some {
                    let kk = first_one(bits, pos0)->Some_0;
                    assert(kk >= 64);
                    if pos0 + 2 * kk + 1 <= bits.len() {
                        lemma_pow2_mono(64, kk);
                    }
                }
            }
            return Err(MetadataError::MalformedStream);
        }
        k = k + 1;
    }
    proof {
        lemma_first_one_at(bits, pos0, k as nat);
    }
    let avail = r.available();
    if avail < k as u64 {
        return Err(MetadataError::MalformedStream);
    }
    let rem: u64 = if k > 0 {
        r.read_var64(k)
    } else {
        0
    };
    proof {
        let tail = bits.subrange((pos0 + k + 1) as int, (pos0 + 2 * k + 1) as int);
        lemma_be_val_bound(tail);
        if k == 0 {
            assert(tail =~= Seq::<bool>::empty());
        }
        assert(rem as nat == be_val(tail));
        assert((rem as nat) < pow2(k as nat));
        lemma_pow2_pos(k as nat);
        lemma_pow2_mono(k as nat, 63);
        lemma_pow2_64();
    }
    let p = pow2_u64(k);
    let v: u64 = p - 1 + rem;
    Ok(v)
}

} // verus!
