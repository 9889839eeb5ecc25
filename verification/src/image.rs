//! The byte image that a builder describes. The image starts with one 8-byte
//! slot per bucket and ends with the table size; in between, each entry holds
//! an 8-byte link to the next entry of its bucket, its name and a zero byte,
//! its size, and (aligned) its contents. Every number takes 8 bytes in one
//! byte order, and a link of zero ends a chain.

use vstd::prelude::*;
use crate::order::{ByteOrder, lemma_num_bytes_len, native_bytes, num_bytes};
use crate::builder::{Entry, bucket_of, chain_tail, content_start, entry_pos, name_bytes};

verus! {

/// `img` with `bytes` written over it from offset `off` on.
pub open spec fn put(img: Seq<u8>, off: int, bytes: Seq<u8>) -> Seq<u8> {
    Seq::new(img.len(), |k: int| if off <= k < off + bytes.len() { bytes[k - off] } else { img[k] })
}

/// Where the table size is stored: right after the last entry.
pub open spec fn trailer_pos(ts: u64, es: Seq<Entry>) -> int {
    entry_pos(ts, es, es.len() as int)
}

/// Zeros throughout, with the table size at the end.
pub open spec fn blank_image(ts: u64, es: Seq<Entry>, order: ByteOrder) -> Seq<u8> {
    put(Seq::new((trailer_pos(ts, es) + 8) as nat, |k: int| 0u8), trailer_pos(ts, es), num_bytes(order, ts))
}

/// Writes the body of an entry that begins at `pos`: its name with a
/// terminating zero, its size, and its contents.
pub open spec fn put_entry(img: Seq<u8>, pos: int, name: Seq<u8>, size: u64, content: Seq<u8>, order: ByteOrder) -> Seq<u8> {
    let with_name = put(img, pos + 8, name.push(0u8));
    let with_size = put(with_name, pos + 8 + name.len() + 1, num_bytes(order, size));
    put(with_size, content_start(pos, name.len() as int), content)
}

/// The image after the bodies of the first `k` entries are written.
pub open spec fn image_with_entries(ts: u64, es: Seq<Entry>, contents: Seq<Seq<u8>>, k: int, order: ByteOrder) -> Seq<u8>
    decreases k,
{
    if k <= 0 {
        blank_image(ts, es, order)
    } else {
        put_entry(
            image_with_entries(ts, es, contents, k - 1, order),
            entry_pos(ts, es, k - 1),
            name_bytes(es[k - 1].0),
            es[k - 1].1,
            contents[k - 1], order,
        )
    }
}

/// The image after all entry bodies and then the first `k` links are
/// written; link `i` points from the tail of its bucket to entry `i`.
pub open spec fn image_with_links(ts: u64, es: Seq<Entry>, contents: Seq<Seq<u8>>, k: int, order: ByteOrder) -> Seq<u8>
    decreases k,
{
    if k <= 0 {
        image_with_entries(ts, es, contents, es.len() as int, order)
    } else {
        put(
            image_with_links(ts, es, contents, k - 1, order),
            chain_tail(ts, es, bucket_of(ts, es[k - 1].0), k - 1),
            num_bytes(order, entry_pos(ts, es, k - 1) as u64),
        )
    }
}

/// The complete image of a table of `ts` buckets holding the entries `es`
/// with the given contents.
pub open spec fn layout_image(ts: u64, es: Seq<Entry>, contents: Seq<Seq<u8>>, order: ByteOrder) -> Seq<u8> {
    image_with_links(ts, es, contents, es.len() as int, order)
}

/// The contents of a list of files as byte sequences.
pub open spec fn views(cs: Seq<Vec<u8>>) -> Seq<Seq<u8>> {
    cs.map_values(|c: Vec<u8>| c@)
}

/// Writes the 8 bytes of `v` in `order` at `offset`.
pub fn pack_u64(img: &mut Vec<u8>, offset: usize, v: u64, order: ByteOrder)
    requires
        offset + 8 <= old(img).len(),
    ensures
        final(img)@ == put(old(img)@, offset as int, num_bytes(order, v)),
{
    let bytes = match order {
        ByteOrder::Little => vstd::bytes::u64_to_le_bytes(v),
        ByteOrder::Native => native_bytes(v),
    };
    proof {
        lemma_num_bytes_len(order, v);
    }
    pack_bytes(img, offset, bytes.as_slice());
}

/// Writes `bytes` at `offset`.
pub fn pack_bytes(img: &mut Vec<u8>, offset: usize, bytes: &[u8])
    requires
        offset + bytes@.len() <= old(img).len(),
    ensures
        final(img)@ == put(old(img)@, offset as int, bytes@),
{
    let mut k: usize = 0;
    while k < bytes.len()
        invariant
            k <= bytes@.len(),
            offset + bytes@.len() <= old(img).len(),
            img.len() == old(img).len(),
            img@ == put(old(img)@, offset as int, bytes@.take(k as int)),
        decreases bytes@.len() - k,
    {
        img.set(offset + k, bytes[k]);
        k = k + 1;
        assert(img@ =~= put(old(img)@, offset as int, bytes@.take(k as int)));
    }
    assert(bytes@.take(k as int) =~= bytes@);
}

/// Writes the bytes of `s` and a terminating zero at `offset`.
pub fn pack_str(img: &mut Vec<u8>, offset: usize, s: &str)
    requires
        offset + name_bytes(s@).len() + 1 <= old(img).len(),
    ensures
        final(img)@ == put(old(img)@, offset as int, name_bytes(s@).push(0u8)),
{
    let bytes = s.as_bytes();
    pack_bytes(img, offset, bytes);
    let end = offset + bytes.len();
    img.set(end, 0u8);
    assert(img@ =~= put(old(img)@, offset as int, name_bytes(s@).push(0u8)));
}

} // verus!
