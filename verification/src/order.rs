//! The byte orders of the numbers in an image: little endian, or the order
//! of the machine the program runs on.

use vstd::prelude::*;
use vstd::bytes::{lemma_auto_spec_u64_to_from_le_bytes, spec_u64_from_le_bytes, spec_u64_to_le_bytes, spec_u64_to_le_bytes_to_open};
use vstd::endian::{Endian, endianness};

verus! {

/// How the 8 bytes of a number are ordered.
#[derive(Clone, Copy)]
pub enum ByteOrder {
    /// Least significant byte first, on every machine.
    Little,
    /// The order of the machine the program runs on.
    Native,
}

/// The 8 bytes of `v` in the machine's order.
pub open spec fn ne_bytes(v: u64) -> Seq<u8> {
    match endianness() {
        Endian::Little => spec_u64_to_le_bytes(v),
        Endian::Big => spec_u64_to_le_bytes(v).reverse(),
    }
}

/// The number that 8 bytes in the machine's order stand for.
pub open spec fn from_ne_bytes(s: Seq<u8>) -> u64 {
    match endianness() {
        Endian::Little => spec_u64_from_le_bytes(s),
        Endian::Big => spec_u64_from_le_bytes(s.reverse()),
    }
}

/// The 8 bytes of `v` in `order`.
pub open spec fn num_bytes(order: ByteOrder, v: u64) -> Seq<u8> {
    match order {
        ByteOrder::Little => spec_u64_to_le_bytes(v),
        ByteOrder::Native => ne_bytes(v),
    }
}

/// Numbers written in `order` read back as themselves in the machine's
/// order: always for the machine's own order, and for little endian on a
/// little-endian machine.
pub open spec fn reads_back(order: ByteOrder) -> bool {
    order is Native || endianness() is Little
}

pub broadcast proof fn lemma_num_bytes_len(order: ByteOrder, v: u64)
    ensures
        #[trigger] num_bytes(order, v).len() == 8,
{
    lemma_auto_spec_u64_to_from_le_bytes();
    assert(spec_u64_to_le_bytes(v).len() == 8);
}

/// Reading back the bytes of `v` gives `v`.
pub proof fn lemma_num_bytes_read_back(order: ByteOrder, v: u64)
    requires
        reads_back(order),
    ensures
        from_ne_bytes(num_bytes(order, v)) == v,
{
    lemma_auto_spec_u64_to_from_le_bytes();
    let le = spec_u64_to_le_bytes(v);
    assert(le.len() == 8);
    assert(le.reverse().reverse() =~= le);
}

/// The bytes of zero are all zero, in either order.
pub proof fn lemma_num_bytes_zero(order: ByteOrder)
    ensures
        num_bytes(order, 0) == Seq::new(8, |m: int| 0u8),
{
    spec_u64_to_le_bytes_to_open(0);
    assert(0u64 & 0xff == 0 && (0u64 >> 8) & 0xff == 0 && (0u64 >> 16) & 0xff == 0 && (0u64 >> 24) & 0xff
        == 0 && (0u64 >> 32) & 0xff == 0 && (0u64 >> 40) & 0xff == 0 && (0u64 >> 48) & 0xff == 0 && (0u64
        >> 56) & 0xff == 0) by (bit_vector);
    let le = spec_u64_to_le_bytes(0);
    assert(le =~= Seq::new(8, |m: int| 0u8));
    assert(le.reverse() =~= Seq::new(8, |m: int| 0u8));
}

/// `u64::to_ne_bytes`: the memory representation of `v`, in the machine's
/// byte order. The claim is that the bytes are those of `v` little endian
/// on a little-endian machine, reversed on a big-endian one.
#[verifier::external_body]
pub fn native_bytes(v: u64) -> (b: Vec<u8>)
    ensures
        b@ == ne_bytes(v),
{
    v.to_ne_bytes().to_vec()
}

/// `u64::from_ne_bytes`: the number whose memory representation is `s`, in
/// the machine's byte order; the claim is the converse of `native_bytes`.
#[verifier::external_body]
pub fn from_native_bytes(s: &[u8]) -> (v: u64)
    requires
        s@.len() == 8,
    ensures
        v == from_ne_bytes(s@),
{
    u64::from_ne_bytes([s[0], s[1], s[2], s[3], s[4], s[5], s[6], s[7]])
}

} // verus!
