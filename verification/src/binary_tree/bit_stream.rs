//! Bits packed into bytes, most significant bit first, through the `bitstream-io` crate.
//!
//! The writer and reader are those of the crate, each held in a struct of this library;
//! what they hold is named by the bits written so far and the bits still to read, and each
//! wrapper below states what one call does to them.

use vstd::prelude::*;
use vstd::arithmetic::power2::pow2;
use bitstream_io::{BigEndian, BitRead, BitReader, BitWrite, BitWriter};

verus! {

/// A bit writer over a growing byte vector, most significant bit first.
#[verifier::external_body]
pub struct BitSink {
    inner: BitWriter<Vec<u8>, BigEndian>,
}

/// A bit reader over a byte vector, most significant bit first.
#[verifier::external_body]
pub struct BitSource {
    inner: BitReader<std::io::Cursor<Vec<u8>>, BigEndian>,
}

/// Bit `j` (0 for the most significant) of the byte `b`.
pub open spec fn bit_of(b: u8, j: int) -> bool {
    (b as int / pow2((7 - j) as nat) as int) % 2 == 1
}

/// The bits of a sequence of bytes, each byte most significant bit first.
pub open spec fn bits_of_bytes(bytes: Seq<u8>) -> Seq<bool> {
    Seq::new(bytes.len() * 8, |k: int| bit_of(bytes[k / 8], k % 8))
}

/// `bits` followed by `false` bits up to a whole number of bytes.
pub open spec fn padded(bits: Seq<bool>) -> Seq<bool> {
    bits + Seq::new(((8 - bits.len() % 8) % 8) as nat, |i: int| false)
}

/// Every bit written to a writer so far, in order.
pub uninterp spec fn written_bits(w: BitSink) -> Seq<bool>;

/// The bits a reader has still to read, in order.
pub uninterp spec fn unread_bits(r: BitSource) -> Seq<bool>;

/// `BitWriter::endian` over an empty byte vector in big-endian order: a writer that has
/// written nothing yet.
#[verifier::external_body]
pub(crate) fn new_bit_writer() -> (w: BitSink)
    ensures
        written_bits(w) == Seq::<bool>::empty(),
{
    BitSink { inner: BitWriter::endian(Vec::new(), BigEndian) }
}

/// `BitWrite::write_bit` on a writer over a byte vector: the bit is added after those
/// written before. A full byte goes to the vector, whose writes do not fail, so the
/// `io::Result` is dropped.
#[verifier::external_body]
pub(crate) fn write_bit(w: &mut BitSink, bit: bool)
    ensures
        written_bits(*final(w)) == written_bits(*old(w)).push(bit),
{
    let _ = w.inner.write_bit(bit);
}

/// `BitWrite::byte_align`: `false` bits are written until the bits fill whole bytes.
/// Writes to a byte vector do not fail, so the `io::Result` is dropped.
#[verifier::external_body]
pub(crate) fn byte_align(w: &mut BitSink)
    ensures
        written_bits(*final(w)) == padded(written_bits(*old(w))),
{
    let _ = w.inner.byte_align();
}

/// `BitWriter::into_writer`: the byte vector, holding every whole byte written, most
/// significant bit first; the bits of an unfinished last byte are lost.
#[verifier::external_body]
pub(crate) fn into_bytes(w: BitSink) -> (r: Vec<u8>)
    ensures
        bits_of_bytes(r@) == written_bits(w).take((written_bits(w).len() / 8 * 8) as int),
{
    w.inner.into_writer()
}

/// `BitReader::endian` over a cursor on `bytes` in big-endian order: every bit of the
/// bytes is still to read.
#[verifier::external_body]
pub(crate) fn new_bit_reader(bytes: Vec<u8>) -> (r: BitSource)
    ensures
        unread_bits(r) == bits_of_bytes(bytes@),
{
    BitSource { inner: BitReader::endian(std::io::Cursor::new(bytes), BigEndian) }
}

/// `BitRead::read_bit`: the next unread bit; `None` for the error it gives when no byte is
/// left (what it leaves unread then is not stated).
#[verifier::external_body]
pub(crate) fn read_bit(r: &mut BitSource) -> (b: Option<bool>)
    ensures
        unread_bits(*old(r)).len() > 0 ==> b == Some(unread_bits(*old(r))[0]) && unread_bits(*final(r))
            == unread_bits(*old(r)).drop_first(),
        unread_bits(*old(r)).len() == 0 ==> b is None,
{
    match r.inner.read_bit() {
        Ok(bit) => Some(bit),
        Err(_) => None,
    }
}

/// `String::push`: `c` is added at the end of `s`.
#[verifier::external_body]
pub(crate) fn push_char(s: &mut String, c: char)
    ensures
        final(s)@ == old(s)@.push(c),
{
    s.push(c)
}

/// Padding leaves the bits in front and fills whole bytes.
pub proof fn lemma_padded(bits: Seq<bool>)
    ensures
        padded(bits).len() % 8 == 0,
        padded(bits).len() >= bits.len(),
        padded(bits).take(bits.len() as int) == bits,
{
    assert(padded(bits).take(bits.len() as int) =~= bits);
}

} // verus!
