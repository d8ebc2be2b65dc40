use vstd::prelude::*;
use bitstream_io::{BigEndian, BitRead, BitReader, BitWrite, BitWriter};

verus! {

broadcast use vstd::seq_lib::group_seq_properties;

/// A big-endian bit writer over a growing byte vector.
#[verifier::external_body]
pub struct BitSink {
    w: BitWriter<Vec<u8>, BigEndian>,
}

/// A big-endian bit reader over a byte slice.
#[verifier::external_body]
pub struct BitSource<'a> {
    r: BitReader<&'a [u8], BigEndian>,
}

/// The bits handed to a big-endian bit writer so far, in order.
pub uninterp spec fn written_bits(w: BitSink) -> Seq<bool>;

/// The bits a big-endian bit reader has not handed out yet, in order.
pub uninterp spec fn unread_bits(r: BitSource) -> Seq<bool>;

/// The low `n` bits of `v`, most significant first.
pub open spec fn bits_msb(v: nat, n: nat) -> Seq<bool>
    decreases n,
{
    if n == 0 {
        Seq::empty()
    } else {
        bits_msb(v / 2, (n - 1) as nat).push(v % 2 == 1)
    }
}

/// The bits of a byte string, each byte most significant bit first.
pub open spec fn bytes_to_bits(b: Seq<u8>) -> Seq<bool>
    decreases b.len(),
{
    if b.len() == 0 {
        Seq::empty()
    } else {
        bytes_to_bits(b.drop_last()) + bits_msb(b.last() as nat, 8)
    }
}

/// Zero bits that bring a stream of `n` bits to a byte boundary.
pub open spec fn padding(n: nat) -> Seq<bool> {
    Seq::new(((8 - n % 8) % 8) as nat, |i: int| false)
}

pub open spec fn padded(bits: Seq<bool>) -> Seq<bool> {
    bits + padding(bits.len())
}

/// Relies on `BitWriter::endian`: a new writer over an empty `Vec<u8>` holds no bits.
#[verifier::external_body]
pub(crate) fn new_writer() -> (w: BitSink)
    ensures
        written_bits(w) == Seq::<bool>::empty(),
{
    BitSink { w: BitWriter::endian(Vec::new(), BigEndian) }
}

/// Relies on `BitWrite::write_bit` of `BitWriter`: appends one bit; writing into a
/// `Vec<u8>` does not fail.
#[verifier::external_body]
pub(crate) fn write_bit(w: &mut BitSink, bit: bool)
    ensures
        written_bits(*final(w)) == written_bits(*old(w)).push(bit),
{
    let _written = w.w.write_bit(bit);
}

/// Relies on `BitWrite::byte_align` of `BitWriter`: writes zero bits up to the next
/// byte boundary; writing into a `Vec<u8>` does not fail.
#[verifier::external_body]
pub(crate) fn byte_align(w: &mut BitSink)
    ensures
        written_bits(*final(w)) == padded(written_bits(*old(w))),
{
    let _aligned = w.w.byte_align();
}

/// Relies on `BitWriter::into_writer`: on a byte boundary every bit written has
/// reached the vector, eight bits to a byte, most significant first.
#[verifier::external_body]
pub(crate) fn into_bytes(w: BitSink) -> (r: Vec<u8>)
    requires
        written_bits(w).len() % 8 == 0,
    ensures
        bytes_to_bits(r@) == written_bits(w),
{
    w.w.into_writer()
}

/// Relies on `BitReader::endian`: the reader hands out the bits of the slice, each
/// byte most significant bit first.
#[verifier::external_body]
pub(crate) fn new_reader<'a>(bytes: &'a [u8]) -> (r: BitSource<'a>)
    ensures
        unread_bits(r) == bytes_to_bits(bytes@),
{
    BitSource { r: BitReader::endian(bytes, BigEndian) }
}

/// Relies on `BitRead::read_bit` of `BitReader`: hands out the next bit, or fails
/// when the slice is used up.
#[verifier::external_body]
pub(crate) fn read_bit(r: &mut BitSource) -> (b: Option<bool>)
    ensures
        unread_bits(*old(r)).len() > 0 ==> b == Some(unread_bits(*old(r))[0]) && unread_bits(
            *final(r),
        ) == unread_bits(*old(r)).drop_first(),
        unread_bits(*old(r)).len() == 0 ==> b is None && unread_bits(*final(r)) == unread_bits(
            *old(r),
        ),
{
    r.r.read_bit().ok()
}

pub proof fn lemma_bits_msb_len(v: nat, n: nat)
    ensures
        bits_msb(v, n).len() == n,
    decreases n,
{
    if n > 0 {
        lemma_bits_msb_len(v / 2, (n - 1) as nat);
    }
}

pub proof fn lemma_bytes_to_bits_len(b: Seq<u8>)
    ensures
        bytes_to_bits(b).len() == 8 * b.len(),
    decreases b.len(),
{
    if b.len() > 0 {
        lemma_bytes_to_bits_len(b.drop_last());
        lemma_bits_msb_len(b.last() as nat, 8);
    }
}

/// The unsigned value of a bit string read most significant bit first.
pub open spec fn bits_value(s: Seq<bool>) -> nat
    decreases s.len(),
{
    if s.len() == 0 {
        0
    } else {
        2 * bits_value(s.drop_last()) + if s.last() {
            1nat
        } else {
            0nat
        }
    }
}

/// A value below `2^n` is read back from its low `n` bits.
pub proof fn lemma_bits_value_msb(v: nat, n: nat)
    requires
        v < vstd::arithmetic::power2::pow2(n),
    ensures
        bits_value(bits_msb(v, n)) == v,
    decreases n,
{
    if n == 0 {
        vstd::arithmetic::power2::lemma2_to64();
    } else {
        let m = (n - 1) as nat;
        vstd::arithmetic::power2::lemma_pow2_unfold(n);
        assert(v / 2 < vstd::arithmetic::power2::pow2(m));
        lemma_bits_value_msb(v / 2, m);
        assert(bits_msb(v, n).drop_last() == bits_msb(v / 2, m));
    }
}

/// Writes the low `n` bits of `v`, most significant first.
pub(crate) fn write_value(w: &mut BitSink, v: u8, n: u8)
    ensures
        written_bits(*final(w)) == written_bits(*old(w)) + bits_msb(v as nat, n as nat),
    decreases n,
{
    if n == 0 {
        assert(written_bits(*w) =~= written_bits(*w) + Seq::<bool>::empty());
    } else {
        write_value(w, v / 2, n - 1);
        write_bit(w, v % 2 == 1);
        assert(written_bits(*w) =~= written_bits(*old(w)) + bits_msb(v as nat, n as nat));
    }
}

/// Reads `n` bits as an unsigned value, most significant first; `None` when fewer
/// than `n` bits are left.
pub(crate) fn read_value(r: &mut BitSource, n: u8) -> (res: Option<u8>)
    requires
        n <= 8,
    ensures
        unread_bits(*old(r)).len() >= n ==> ({
            &&& res is Some
            &&& (res->0 as nat) < vstd::arithmetic::power2::pow2(n as nat)
            &&& bits_msb(res->0 as nat, n as nat) == unread_bits(*old(r)).take(n as int)
            &&& unread_bits(*final(r)) == unread_bits(*old(r)).skip(n as int)
        }),
        unread_bits(*old(r)).len() < n ==> res is None,
    decreases n,
{
    proof {
        vstd::arithmetic::power2::lemma2_to64();
    }
    if n == 0 {
        assert(unread_bits(*r).take(0) =~= Seq::<bool>::empty());
        assert(unread_bits(*r).skip(0) =~= unread_bits(*r));
        return Some(0);
    }
    let ghost before = unread_bits(*r);
    let high = match read_value(r, n - 1) {
        Some(h) => h,
        None => return None,
    };
    let ghost mid = unread_bits(*r);
    let bit = match read_bit(r) {
        Some(b) => b,
        None => return None,
    };
    proof {
        vstd::arithmetic::power2::lemma_pow2_unfold(n as nat);
        vstd::arithmetic::power2::lemma2_to64();
        assert(vstd::arithmetic::power2::pow2(n as nat) <= 256) by {
            assert(n == 1 || n == 2 || n == 3 || n == 4 || n == 5 || n == 6 || n == 7 || n == 8);
        }
    }
    let v: u8 = if bit { high * 2 + 1 } else { high * 2 };
    proof {
        assert((v as nat) / 2 == high as nat);
        assert(before.take(n as int) =~= before.take(n - 1).push(mid[0]));
        assert(unread_bits(*r) =~= before.skip(n as int));
    }
    Some(v)
}

} // verus!
