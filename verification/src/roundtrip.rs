//! What a built image holds, and that looking a name up in it finds the
//! contents of the first file added under that name.

use vstd::prelude::*;
use crate::order::{ByteOrder, lemma_num_bytes_len, lemma_num_bytes_read_back, lemma_num_bytes_zero, num_bytes, reads_back};
use crate::builder::{
    lemma_bucket_is_hash_mod, lemma_content_start_aligned, HashBuilder, Entry, bucket_of, chain_tail, content_start, entry_end, entry_pos, last_in_bucket, lemma_entry_pos_grows,
    lemma_last_in_bucket_range, name_bytes,
};
use crate::image::{blank_image, image_with_entries, image_with_links, layout_image, put, put_entry, trailer_pos};
use crate::layout::align_up;
use crate::reader::{place_of, has_zero_from, lemma_stored_name, lookup_defined, lookup_result, lookup_walk, read_u64, slot_of, stored_name_is, walk};
use crate::chain::lemma_walk_enough_fuel;
use vstd::utf8::encode_utf8_decode_utf8;
use crate::hashing::hash_chars;

verus! {

broadcast use lemma_num_bytes_len;

/// `img` holds `bytes` from offset `at` on.
pub open spec fn holds_at(img: Seq<u8>, at: int, bytes: Seq<u8>) -> bool {
    &&& 0 <= at
    &&& at + bytes.len() <= img.len()
    &&& forall|m: int| 0 <= m < bytes.len() ==> #[trigger] img[at + m] == bytes[m]
}

/// Writing somewhere else keeps what `img` holds at `at`.
pub proof fn lemma_put_keeps(img: Seq<u8>, off: int, b: Seq<u8>, at: int, x: Seq<u8>)
    requires
        holds_at(img, at, x),
        at + x.len() <= off || off + b.len() <= at,
    ensures
        holds_at(put(img, off, b), at, x),
{
    let img2 = put(img, off, b);
    assert forall|m: int| 0 <= m < x.len() implies #[trigger] img2[at + m] == x[m] by {
        assert(img[at + m] == x[m]);
    }
}

/// After writing `b` at `off`, the image holds `b` there.
pub proof fn lemma_put_holds(img: Seq<u8>, off: int, b: Seq<u8>)
    requires
        0 <= off,
        off + b.len() <= img.len(),
    ensures
        holds_at(put(img, off, b), off, b),
{
    let img2 = put(img, off, b);
    assert forall|m: int| 0 <= m < b.len() implies #[trigger] img2[off + m] == b[m] by {}
}

/// Where an image holds the bytes of `v`, in an order that reads back,
/// reading there gives `v`.
pub proof fn lemma_read_holds(img: Seq<u8>, at: int, v: u64, order: ByteOrder)
    requires
        holds_at(img, at, num_bytes(order, v)),
        reads_back(order),
    ensures
        read_u64(img, at) == v,
{
    let bs = num_bytes(order, v);
    assert(bs.len() == 8);
    assert forall|m: int| 0 <= m < 8 implies img.subrange(at, at + 8)[m] == bs[m] by {
        assert(img[at + m] == bs[m]);
    }
    assert(img.subrange(at, at + 8) =~= bs);
    lemma_num_bytes_read_back(order, v);
}

/// Entry `i`'s name with its terminating zero, its size and its contents
/// stand where the layout puts them.
pub open spec fn body_holds(img: Seq<u8>, ts: u64, es: Seq<Entry>, cs: Seq<Seq<u8>>, i: int, order: ByteOrder) -> bool {
    let p = entry_pos(ts, es, i);
    let nb = name_bytes(es[i].0);
    &&& holds_at(img, p + 8, nb.push(0u8))
    &&& holds_at(img, p + 8 + nb.len() + 1, num_bytes(order, es[i].1))
    &&& holds_at(img, content_start(p, nb.len() as int), cs[i])
}

/// Where the padding of entry `j` begins: right after its size.
pub open spec fn padding_start(ts: u64, es: Seq<Entry>, j: int) -> int {
    entry_pos(ts, es, j) + 8 + name_bytes(es[j].0).len() + 1 + 8
}

/// The zero bytes between entry `j`'s size and its aligned contents.
pub open spec fn padding(ts: u64, es: Seq<Entry>, j: int) -> Seq<u8> {
    let len = content_start(entry_pos(ts, es, j), name_bytes(es[j].0).len() as int) - padding_start(ts, es, j);
    Seq::new(len as nat, |m: int| 0u8)
}

/// The padding of entry `j` is all zeros.
pub open spec fn padding_holds(img: Seq<u8>, ts: u64, es: Seq<Entry>, j: int) -> bool {
    holds_at(img, padding_start(ts, es, j), padding(ts, es, j))
}

/// The slot of bucket `b` holds `v`.
pub open spec fn slot_holds(img: Seq<u8>, b: int, v: u64, order: ByteOrder) -> bool {
    holds_at(img, b * 8, num_bytes(order, v))
}

/// The link field of entry `j` holds `v`.
pub open spec fn link_holds(img: Seq<u8>, ts: u64, es: Seq<Entry>, j: int, v: u64, order: ByteOrder) -> bool {
    holds_at(img, entry_pos(ts, es, j), num_bytes(order, v))
}

/// Every file's contents have the size recorded for it.
pub open spec fn sizes_match(es: Seq<Entry>, cs: Seq<Seq<u8>>) -> bool {
    &&& cs.len() == es.len()
    &&& forall|i: int| 0 <= i < es.len() ==> #[trigger] cs[i].len() == es[i].1
}

/// The state of the image after the bodies of the first `k` entries are
/// written: the table size at the end, zeros in all slots and link fields.
pub open spec fn entries_written(img: Seq<u8>, ts: u64, es: Seq<Entry>, cs: Seq<Seq<u8>>, k: int, order: ByteOrder) -> bool {
    &&& img.len() == trailer_pos(ts, es) + 8
    &&& holds_at(img, trailer_pos(ts, es), num_bytes(order, ts))
    &&& forall|b: int| 0 <= b < ts ==> #[trigger] slot_holds(img, b, 0, order)
    &&& forall|j: int| 0 <= j < es.len() ==> #[trigger] link_holds(img, ts, es, j, 0, order)
    &&& forall|i: int| 0 <= i < k ==> #[trigger] body_holds(img, ts, es, cs, i, order)
    &&& forall|j: int| 0 <= j < es.len() ==> #[trigger] padding_holds(img, ts, es, j)
}

proof fn lemma_content_start_bounds(p: int, l: int)
    ensures
        p + 8 + l + 1 + 8 <= content_start(p, l) < p + 8 + l + 1 + 8 + 32,
{
}

/// Writing an entry's body keeps what lies outside it.
proof fn lemma_put_entry_keeps(img: Seq<u8>, p: int, nb: Seq<u8>, size: u64, c: Seq<u8>, at: int, x: Seq<u8>, order: ByteOrder)
    requires
        holds_at(img, at, x),
        c.len() == size,
        at + x.len() <= p + 8 || entry_end(p, nb.len() as int, size as int) <= at,
    ensures
        holds_at(put_entry(img, p, nb, size, c, order), at, x),
{
    lemma_content_start_bounds(p, nb.len() as int);
    assert(num_bytes(order, size).len() == 8);
    let i1 = put(img, p + 8, nb.push(0u8));
    lemma_put_keeps(img, p + 8, nb.push(0u8), at, x);
    let i2 = put(i1, p + 8 + nb.len() + 1, num_bytes(order, size));
    lemma_put_keeps(i1, p + 8 + nb.len() + 1, num_bytes(order, size), at, x);
    lemma_put_keeps(i2, content_start(p, nb.len() as int), c, at, x);
}

/// Writing an entry's body puts its parts in place.
proof fn lemma_put_entry_holds(img: Seq<u8>, p: int, nb: Seq<u8>, size: u64, c: Seq<u8>, order: ByteOrder)
    requires
        0 <= p,
        c.len() == size,
        entry_end(p, nb.len() as int, size as int) <= img.len(),
    ensures
        holds_at(put_entry(img, p, nb, size, c, order), p + 8, nb.push(0u8)),
        holds_at(put_entry(img, p, nb, size, c, order), p + 8 + nb.len() + 1, num_bytes(order, size)),
        holds_at(put_entry(img, p, nb, size, c, order), content_start(p, nb.len() as int), c),
{
    lemma_content_start_bounds(p, nb.len() as int);
    assert(num_bytes(order, size).len() == 8);
    let i1 = put(img, p + 8, nb.push(0u8));
    lemma_put_holds(img, p + 8, nb.push(0u8));
    let i2 = put(i1, p + 8 + nb.len() + 1, num_bytes(order, size));
    lemma_put_holds(i1, p + 8 + nb.len() + 1, num_bytes(order, size));
    lemma_put_keeps(i1, p + 8 + nb.len() + 1, num_bytes(order, size), p + 8, nb.push(0u8));
    lemma_put_holds(i2, content_start(p, nb.len() as int), c);
    lemma_put_keeps(i2, content_start(p, nb.len() as int), c, p + 8, nb.push(0u8));
    lemma_put_keeps(i2, content_start(p, nb.len() as int), c, p + 8 + nb.len() + 1, num_bytes(order, size));
}

/// Writing an entry's body leaves its padding alone.
proof fn lemma_put_entry_keeps_padding(img: Seq<u8>, p: int, nb: Seq<u8>, size: u64, c: Seq<u8>, x: Seq<u8>, order: ByteOrder)
    requires
        holds_at(img, p + 8 + nb.len() + 1 + 8, x),
        p + 8 + nb.len() + 1 + 8 + x.len() == content_start(p, nb.len() as int),
    ensures
        holds_at(put_entry(img, p, nb, size, c, order), p + 8 + nb.len() + 1 + 8, x),
{
    let at = p + 8 + nb.len() + 1 + 8;
    let i1 = put(img, p + 8, nb.push(0u8));
    lemma_put_keeps(img, p + 8, nb.push(0u8), at, x);
    let i2 = put(i1, p + 8 + nb.len() + 1, num_bytes(order, size));
    lemma_put_keeps(i1, p + 8 + nb.len() + 1, num_bytes(order, size), at, x);
    lemma_put_keeps(i2, content_start(p, nb.len() as int), c, at, x);
}

/// The blank image holds the table size at its end and zeros elsewhere.
proof fn lemma_blank(ts: u64, es: Seq<Entry>, cs: Seq<Seq<u8>>, order: ByteOrder)
    ensures
        entries_written(blank_image(ts, es, order), ts, es, cs, 0, order),
{
    let end = trailer_pos(ts, es);
    lemma_entry_pos_grows(ts, es, 0, es.len() as int);
    assert(num_bytes(order, ts).len() == 8);
    lemma_num_bytes_zero(order);
    let z = Seq::new((end + 8) as nat, |k: int| 0u8);
    let img = blank_image(ts, es, order);
    lemma_put_holds(z, end, num_bytes(order, ts));
    assert forall|b: int| 0 <= b < ts implies #[trigger] slot_holds(img, b, 0, order) by {
        assert forall|m: int| 0 <= m < 8 implies #[trigger] img[b * 8 + m] == num_bytes(order, 0)[m] by {}
    }
    assert forall|j: int| 0 <= j < es.len() implies #[trigger] link_holds(img, ts, es, j, 0, order) by {
        lemma_entry_pos_grows(ts, es, j, es.len() as int);
        lemma_entry_pos_grows(ts, es, 0, j);
        assert forall|m: int| 0 <= m < 8 implies #[trigger] img[entry_pos(ts, es, j) + m] == num_bytes(order, 0)[m] by {}
    }
    assert forall|j: int| 0 <= j < es.len() implies #[trigger] padding_holds(img, ts, es, j) by {
        lemma_entry_pos_grows(ts, es, j + 1, es.len() as int);
        lemma_entry_pos_grows(ts, es, 0, j);
        lemma_content_start_bounds(entry_pos(ts, es, j), name_bytes(es[j].0).len() as int);
        let st = padding_start(ts, es, j);
        assert forall|m: int| 0 <= m < padding(ts, es, j).len() implies #[trigger] img[st + m] == padding(ts, es, j)[m] by {}
    }
}

/// Writing the body of entry `k` keeps everything written before and adds
/// that body.
proof fn lemma_entry_step(img: Seq<u8>, ts: u64, es: Seq<Entry>, cs: Seq<Seq<u8>>, k: int, order: ByteOrder)
    requires
        0 <= k < es.len(),
        sizes_match(es, cs),
        entries_written(img, ts, es, cs, k, order),
    ensures
        entries_written(
            put_entry(img, entry_pos(ts, es, k), name_bytes(es[k].0), es[k].1, cs[k], order),
            ts,
            es,
            cs,
            k + 1, order,
        ),
{
    let p = entry_pos(ts, es, k);
    let nb = name_bytes(es[k].0);
    let size = es[k].1;
    let c = cs[k];
    let n = es.len() as int;
    let img2 = put_entry(img, p, nb, size, c, order);
    let end = trailer_pos(ts, es);
    assert(c.len() == size);
    lemma_entry_pos_grows(ts, es, k + 1, n);
    lemma_entry_pos_grows(ts, es, 0, k);
    assert(entry_end(p, nb.len() as int, size as int) == entry_pos(ts, es, k + 1));
    lemma_content_start_bounds(p, nb.len() as int);
    lemma_put_entry_holds(img, p, nb, size, c, order);
    assert(num_bytes(order, ts).len() == 8);
    lemma_put_entry_keeps(img, p, nb, size, c, end, num_bytes(order, ts), order);
    assert forall|b: int| 0 <= b < ts implies #[trigger] slot_holds(img2, b, 0, order) by {
        assert(slot_holds(img, b, 0, order));
        assert(num_bytes(order, 0).len() == 8);
        lemma_put_entry_keeps(img, p, nb, size, c, b * 8, num_bytes(order, 0), order);
    }
    assert forall|j: int| 0 <= j < n implies #[trigger] link_holds(img2, ts, es, j, 0, order) by {
        assert(link_holds(img, ts, es, j, 0, order));
        assert(num_bytes(order, 0).len() == 8);
        if j <= k {
            lemma_entry_pos_grows(ts, es, j, k);
        } else {
            lemma_entry_pos_grows(ts, es, k + 1, j);
        }
        lemma_put_entry_keeps(img, p, nb, size, c, entry_pos(ts, es, j), num_bytes(order, 0), order);
    }
    assert forall|j: int| 0 <= j < n implies #[trigger] padding_holds(img2, ts, es, j) by {
        assert(padding_holds(img, ts, es, j));
        let pj = entry_pos(ts, es, j);
        lemma_content_start_bounds(pj, name_bytes(es[j].0).len() as int);
        if j == k {
            lemma_put_entry_keeps_padding(img, p, nb, size, c, padding(ts, es, j), order);
        } else {
            if j < k {
                lemma_entry_pos_grows(ts, es, j + 1, k);
            } else {
                lemma_entry_pos_grows(ts, es, k + 1, j);
            }
            lemma_put_entry_keeps(img, p, nb, size, c, padding_start(ts, es, j), padding(ts, es, j), order);
        }
    }
    assert forall|i: int| 0 <= i < k + 1 implies #[trigger] body_holds(img2, ts, es, cs, i, order) by {
        if i < k {
            assert(body_holds(img, ts, es, cs, i, order));
            let pi = entry_pos(ts, es, i);
            let nbi = name_bytes(es[i].0);
            lemma_entry_pos_grows(ts, es, i + 1, k);
            lemma_content_start_bounds(pi, nbi.len() as int);
            assert(num_bytes(order, es[i].1).len() == 8);
            assert(cs[i].len() == es[i].1);
            lemma_put_entry_keeps(img, p, nb, size, c, pi + 8, nbi.push(0u8), order);
            lemma_put_entry_keeps(img, p, nb, size, c, pi + 8 + nbi.len() + 1, num_bytes(order, es[i].1), order);
            lemma_put_entry_keeps(img, p, nb, size, c, content_start(pi, nbi.len() as int), cs[i], order);
        }
    }
}

/// All entry bodies written: the state that the links start from.
proof fn lemma_entries_written(ts: u64, es: Seq<Entry>, cs: Seq<Seq<u8>>, k: int, order: ByteOrder)
    requires
        0 <= k <= es.len(),
        sizes_match(es, cs),
    ensures
        entries_written(image_with_entries(ts, es, cs, k, order), ts, es, cs, k, order),
    decreases k,
{
    if k == 0 {
        lemma_blank(ts, es, cs, order);
    } else {
        lemma_entries_written(ts, es, cs, k - 1, order);
        lemma_entry_step(image_with_entries(ts, es, cs, k - 1, order), ts, es, cs, k - 1, order);
    }
}

/// The first of the first `k` entries that falls into bucket `b`.
pub open spec fn first_in_bucket(ts: u64, es: Seq<Entry>, b: int, k: int) -> Option<int>
    decreases k,
{
    if k <= 0 {
        None
    } else {
        match first_in_bucket(ts, es, b, k - 1) {
            Some(i) => Some(i),
            None => if bucket_of(ts, es[k - 1].0) == b {
                Some(k - 1)
            } else {
                None
            },
        }
    }
}

/// The first entry after entry `j`, and before entry `k`, that falls into
/// the bucket of entry `j`.
pub open spec fn next_in_bucket(ts: u64, es: Seq<Entry>, j: int, k: int) -> Option<int>
    decreases k - j,
{
    if k <= j + 1 {
        None
    } else {
        match next_in_bucket(ts, es, j, k - 1) {
            Some(i) => Some(i),
            None => if bucket_of(ts, es[k - 1].0) == bucket_of(ts, es[j].0) {
                Some(k - 1)
            } else {
                None
            },
        }
    }
}

/// Where the entry with index `o` begins, or zero for no entry: what a link
/// to it holds.
pub open spec fn link_to(ts: u64, es: Seq<Entry>, o: Option<int>) -> u64 {
    match o {
        Some(i) => entry_pos(ts, es, i) as u64,
        None => 0,
    }
}

pub proof fn lemma_first_in_bucket(ts: u64, es: Seq<Entry>, b: int, k: int)
    ensures
        match first_in_bucket(ts, es, b, k) {
            Some(i) => 0 <= i < k && bucket_of(ts, es[i].0) == b && forall|j: int|
                0 <= j < i ==> bucket_of(ts, #[trigger] es[j].0) != b,
            None => forall|j: int| 0 <= j < k ==> bucket_of(ts, #[trigger] es[j].0) != b,
        },
    decreases k,
{
    if k > 0 {
        lemma_first_in_bucket(ts, es, b, k - 1);
    }
}

pub proof fn lemma_next_in_bucket(ts: u64, es: Seq<Entry>, j: int, k: int)
    ensures
        match next_in_bucket(ts, es, j, k) {
            Some(i) => j < i < k && bucket_of(ts, es[i].0) == bucket_of(ts, es[j].0) && forall|m: int|
                j < m < i ==> bucket_of(ts, #[trigger] es[m].0) != bucket_of(ts, es[j].0),
            None => forall|m: int| j < m < k ==> bucket_of(ts, #[trigger] es[m].0) != bucket_of(ts, es[j].0),
        },
    decreases k - j,
{
    if k > j + 1 {
        lemma_next_in_bucket(ts, es, j, k - 1);
    }
}

pub proof fn lemma_last_in_bucket(ts: u64, es: Seq<Entry>, b: int, k: int)
    ensures
        match last_in_bucket(ts, es, b, k) {
            Some(j) => 0 <= j < k && bucket_of(ts, es[j].0) == b && forall|m: int|
                j < m < k ==> bucket_of(ts, #[trigger] es[m].0) != b,
            None => forall|m: int| 0 <= m < k ==> bucket_of(ts, #[trigger] es[m].0) != b,
        },
    decreases k,
{
    if k > 0 {
        lemma_last_in_bucket(ts, es, b, k - 1);
    }
}

/// The state of the image after all bodies and the first `k` links are
/// written: each slot links to the first entry of its bucket so far, and
/// each entry to the next one of its bucket so far.
pub open spec fn links_written(img: Seq<u8>, ts: u64, es: Seq<Entry>, cs: Seq<Seq<u8>>, k: int, order: ByteOrder) -> bool {
    &&& img.len() == trailer_pos(ts, es) + 8
    &&& holds_at(img, trailer_pos(ts, es), num_bytes(order, ts))
    &&& forall|i: int| 0 <= i < es.len() ==> #[trigger] body_holds(img, ts, es, cs, i, order)
    &&& forall|j: int| 0 <= j < es.len() ==> #[trigger] padding_holds(img, ts, es, j)
    &&& forall|b: int| 0 <= b < ts ==> #[trigger] slot_holds(img, b, link_to(ts, es, first_in_bucket(ts, es, b, k)), order)
    &&& forall|j: int|
        0 <= j < es.len() ==> #[trigger] link_holds(img, ts, es, j, link_to(ts, es, next_in_bucket(ts, es, j, k)), order)
}

/// Writing 8 bytes outside the body of entry `i` keeps that body.
proof fn lemma_put_keeps_body(img: Seq<u8>, off: int, x: Seq<u8>, ts: u64, es: Seq<Entry>, cs: Seq<Seq<u8>>, i: int, order: ByteOrder)
    requires
        0 <= i < es.len(),
        sizes_match(es, cs),
        body_holds(img, ts, es, cs, i, order),
        off + x.len() <= entry_pos(ts, es, i) + 8 || entry_pos(ts, es, i + 1) <= off,
    ensures
        body_holds(put(img, off, x), ts, es, cs, i, order),
{
    let p = entry_pos(ts, es, i);
    let nb = name_bytes(es[i].0);
    lemma_content_start_bounds(p, nb.len() as int);
    assert(num_bytes(order, es[i].1).len() == 8);
    assert(cs[i].len() == es[i].1);
    lemma_put_keeps(img, off, x, p + 8, nb.push(0u8));
    lemma_put_keeps(img, off, x, p + 8 + nb.len() + 1, num_bytes(order, es[i].1));
    lemma_put_keeps(img, off, x, content_start(p, nb.len() as int), cs[i]);
}

/// Writing link `k` keeps everything written before and points the tail of
/// its bucket at entry `k`.
proof fn lemma_link_step(img: Seq<u8>, ts: u64, es: Seq<Entry>, cs: Seq<Seq<u8>>, k: int, order: ByteOrder)
    requires
        0 <= k < es.len(),
        ts > 0,
        trailer_pos(ts, es) <= u64::MAX,
        sizes_match(es, cs),
        links_written(img, ts, es, cs, k, order),
    ensures
        links_written(
            put(img, chain_tail(ts, es, bucket_of(ts, es[k].0), k), num_bytes(order, entry_pos(ts, es, k) as u64)),
            ts,
            es,
            cs,
            k + 1, order,
        ),
{
    let n = es.len() as int;
    let bk = bucket_of(ts, es[k].0);
    let t = chain_tail(ts, es, bk, k);
    let v = entry_pos(ts, es, k) as u64;
    let img2 = put(img, t, num_bytes(order, v));
    let end = trailer_pos(ts, es);
    assert(num_bytes(order, v).len() == 8);
    assert(num_bytes(order, ts).len() == 8);
    lemma_entry_pos_grows(ts, es, 0, k);
    lemma_entry_pos_grows(ts, es, k, n);
    assert(entry_pos(ts, es, k) == v);
    lemma_last_in_bucket(ts, es, bk, k);
    lemma_first_in_bucket(ts, es, bk, k);
    let last = last_in_bucket(ts, es, bk, k);
    if let Some(j0) = last {
        lemma_entry_pos_grows(ts, es, j0, n);
        lemma_entry_pos_grows(ts, es, 0, j0);
        lemma_next_in_bucket(ts, es, j0, k);
    }
    // The tail lies inside the image, before the table size.
    assert(0 <= t && t + 8 <= end);
    lemma_put_keeps(img, t, num_bytes(order, v), end, num_bytes(order, ts));
    assert forall|i: int| 0 <= i < n implies #[trigger] body_holds(img2, ts, es, cs, i, order) by {
        assert(body_holds(img, ts, es, cs, i, order));
        lemma_entry_pos_grows(ts, es, 0, i);
        if let Some(j0) = last {
            if j0 <= i {
                lemma_entry_pos_grows(ts, es, j0, i);
            } else {
                lemma_entry_pos_grows(ts, es, i + 1, j0);
            }
        }
        lemma_put_keeps_body(img, t, num_bytes(order, v), ts, es, cs, i, order);
    }
    assert forall|j: int| 0 <= j < n implies #[trigger] padding_holds(img2, ts, es, j) by {
        assert(padding_holds(img, ts, es, j));
        lemma_entry_pos_grows(ts, es, 0, j);
        lemma_entry_pos_grows(ts, es, j + 1, n);
        lemma_content_start_bounds(entry_pos(ts, es, j), name_bytes(es[j].0).len() as int);
        if let Some(j0) = last {
            if j0 <= j {
                lemma_entry_pos_grows(ts, es, j0, j);
            } else {
                lemma_entry_pos_grows(ts, es, j + 1, j0);
            }
        }
        lemma_put_keeps(img, t, num_bytes(order, v), padding_start(ts, es, j), padding(ts, es, j));
    }
    assert forall|b: int| 0 <= b < ts implies #[trigger] slot_holds(
        img2,
        b,
        link_to(ts, es, first_in_bucket(ts, es, b, k + 1)), order,
    ) by {
        let old_v = link_to(ts, es, first_in_bucket(ts, es, b, k));
        assert(slot_holds(img, b, old_v, order));
        assert(num_bytes(order, old_v).len() == 8);
        if last is None && b == bk {
            lemma_put_holds(img, t, num_bytes(order, v));
        } else {
            if b == bk {
                assert(first_in_bucket(ts, es, b, k) is Some);
            }
            lemma_put_keeps(img, t, num_bytes(order, v), b * 8, num_bytes(order, old_v));
        }
    }
    assert forall|j: int| 0 <= j < n implies #[trigger] link_holds(
        img2,
        ts,
        es,
        j,
        link_to(ts, es, next_in_bucket(ts, es, j, k + 1)), order,
    ) by {
        let old_v = link_to(ts, es, next_in_bucket(ts, es, j, k));
        assert(link_holds(img, ts, es, j, old_v, order));
        assert(num_bytes(order, old_v).len() == 8);
        lemma_entry_pos_grows(ts, es, 0, j);
        lemma_next_in_bucket(ts, es, j, k);
        if last == Some(j) {
            lemma_put_holds(img, t, num_bytes(order, v));
        } else {
            if let Some(j0) = last {
                if j < j0 {
                    lemma_entry_pos_grows(ts, es, j + 1, j0);
                } else {
                    lemma_entry_pos_grows(ts, es, j0 + 1, j);
                }
            }
            if j < k && bucket_of(ts, es[j].0) == bk {
                assert(next_in_bucket(ts, es, j, k) is Some);
            }
            lemma_put_keeps(img, t, num_bytes(order, v), entry_pos(ts, es, j), num_bytes(order, old_v));
        }
    }
}

/// All bodies and all links written: what a built image holds.
proof fn lemma_links_written(ts: u64, es: Seq<Entry>, cs: Seq<Seq<u8>>, k: int, order: ByteOrder)
    requires
        0 <= k <= es.len(),
        ts > 0,
        trailer_pos(ts, es) <= u64::MAX,
        sizes_match(es, cs),
    ensures
        links_written(image_with_links(ts, es, cs, k, order), ts, es, cs, k, order),
    decreases k,
{
    if k == 0 {
        let n = es.len() as int;
        lemma_entries_written(ts, es, cs, n, order);
        let img = image_with_entries(ts, es, cs, n, order);
        assert forall|b: int| 0 <= b < ts implies #[trigger] slot_holds(
            img,
            b,
            link_to(ts, es, first_in_bucket(ts, es, b, 0)), order,
        ) by {
            assert(slot_holds(img, b, 0, order));
        }
        assert forall|j: int| 0 <= j < n implies #[trigger] link_holds(
            img,
            ts,
            es,
            j,
            link_to(ts, es, next_in_bucket(ts, es, j, 0)), order,
        ) by {
            assert(link_holds(img, ts, es, j, 0, order));
        }
    } else {
        lemma_links_written(ts, es, cs, k - 1, order);
        lemma_link_step(image_with_links(ts, es, cs, k - 1, order), ts, es, cs, k - 1, order);
    }
}

/// What a built image holds at each place. It ends with the table size.
/// It starts with one slot per bucket, which holds where the bucket's first
/// entry begins, or zero. Each entry then holds, in this order: where the
/// next entry of its bucket begins, or zero; its name and a zero byte; its
/// size; zeros up to a multiple of 32; its contents. The next entry, or the
/// table size, follows right after the contents, so these places cover the
/// whole image.
pub proof fn lemma_image_layout(ts: u64, es: Seq<Entry>, cs: Seq<Seq<u8>>, order: ByteOrder)
    requires
        ts > 0,
        offsets_fit(ts, es),
        sizes_match(es, cs),
    ensures
        layout_image(ts, es, cs, order).len() == trailer_pos(ts, es) + 8,
        holds_at(layout_image(ts, es, cs, order), trailer_pos(ts, es), num_bytes(order, ts)),
        entry_pos(ts, es, 0) == ts * 8,
        forall|b: int|
            0 <= b < ts ==> #[trigger] slot_holds(
                layout_image(ts, es, cs, order),
                b,
                link_to(ts, es, first_in_bucket(ts, es, b, es.len() as int)),
                order,
            ),
        forall|j: int|
            0 <= j < es.len() ==> #[trigger] link_holds(
                layout_image(ts, es, cs, order),
                ts,
                es,
                j,
                link_to(ts, es, next_in_bucket(ts, es, j, es.len() as int)),
                order,
            ),
        forall|i: int|
            0 <= i < es.len() ==> {
                &&& #[trigger] body_holds(layout_image(ts, es, cs, order), ts, es, cs, i, order)
                &&& padding_holds(layout_image(ts, es, cs, order), ts, es, i)
                &&& content_start(entry_pos(ts, es, i), name_bytes(es[i].0).len() as int) + es[i].1
                    == entry_pos(ts, es, i + 1)
            },
{
    let n = es.len() as int;
    lemma_links_written(ts, es, cs, n, order);
    let img = layout_image(ts, es, cs, order);
    assert forall|i: int| 0 <= i < n implies {
        &&& #[trigger] body_holds(img, ts, es, cs, i, order)
        &&& padding_holds(img, ts, es, i)
        &&& content_start(entry_pos(ts, es, i), name_bytes(es[i].0).len() as int) + es[i].1 == entry_pos(ts, es, i + 1)
    } by {
        assert(body_holds(img, ts, es, cs, i, order));
        assert(padding_holds(img, ts, es, i));
    }
}

/// The first of the first `k` entries that carries `name`.
pub open spec fn first_named(es: Seq<Entry>, name: Seq<char>, k: int) -> Option<int>
    decreases k,
{
    if k <= 0 {
        None
    } else {
        match first_named(es, name, k - 1) {
            Some(i) => Some(i),
            None => if es[k - 1].0 == name {
                Some(k - 1)
            } else {
                None
            },
        }
    }
}

pub proof fn lemma_first_named(es: Seq<Entry>, name: Seq<char>, k: int)
    ensures
        match first_named(es, name, k) {
            Some(i) => 0 <= i < k && es[i].0 == name && forall|j: int| 0 <= j < i ==> #[trigger] es[j].0 != name,
            None => forall|j: int| 0 <= j < k ==> #[trigger] es[j].0 != name,
        },
    decreases k,
{
    if k > 0 {
        lemma_first_named(es, name, k - 1);
    }
}

/// Different names have different bytes.
proof fn lemma_name_bytes_injective(a: Seq<char>, b: Seq<char>)
    ensures
        name_bytes(a) == name_bytes(b) <==> a == b,
{
    encode_utf8_decode_utf8(a);
    encode_utf8_decode_utf8(b);
}

/// What a lookup in a built image finds: the contents of the first entry
/// carrying the name, or nothing.
pub open spec fn expected_find(ts: u64, es: Seq<Entry>, name: Seq<char>) -> Option<(int, u64)> {
    match first_named(es, name, es.len() as int) {
        Some(i) => Some(
            (content_start(entry_pos(ts, es, i), name_bytes(es[i].0).len() as int), es[i].1),
        ),
        None => None,
    }
}

/// No name holds a zero byte.
pub open spec fn names_without_zero(es: Seq<Entry>) -> bool {
    forall|i: int, k: int|
        0 <= i < es.len() && 0 <= k < name_bytes(es[i].0).len() ==> #[trigger] name_bytes(es[i].0)[k] != 0
}

/// Every offset in the image fits in 64 bits, as the builder keeps them.
pub open spec fn offsets_fit(ts: u64, es: Seq<Entry>) -> bool {
    trailer_pos(ts, es) <= u64::MAX
}

/// What a walk sees at entry `i` of a built image: a real entry, whose
/// name is `name` just when the entry carries it, whose size field holds its
/// size, and whose link leads to the next entry of its bucket.
proof fn lemma_entry_node(img: Seq<u8>, ts: u64, es: Seq<Entry>, cs: Seq<Seq<u8>>, name: Seq<char>, i: int, order: ByteOrder)
    requires
        reads_back(order),
        ts > 0,
        offsets_fit(ts, es),
        sizes_match(es, cs),
        names_without_zero(es),
        links_written(img, ts, es, cs, es.len() as int, order),
        0 <= i < es.len(),
    ensures
        ({
            let p = entry_pos(ts, es, i);
            let bl = name_bytes(es[i].0).len() as int;
            &&& 0 < p
            &&& p + 8 <= img.len()
            &&& has_zero_from(img, p + 8)
            &&& stored_name_is(img, p + 8, name_bytes(name)) <==> es[i].0 == name
            &&& p + 8 + bl + 1 + 8 <= img.len()
            &&& read_u64(img, p + 8 + bl + 1) == es[i].1
            &&& read_u64(img, p) == link_to(ts, es, next_in_bucket(ts, es, i, es.len() as int))
        }),
{
    let n = es.len() as int;
    let p = entry_pos(ts, es, i);
    let nb = name_bytes(es[i].0);
    let qb = name_bytes(name);
    let bl = nb.len() as int;
    lemma_entry_pos_grows(ts, es, 0, i);
    lemma_entry_pos_grows(ts, es, i + 1, n);
    lemma_content_start_bounds(p, bl);
    assert(body_holds(img, ts, es, cs, i, order));
    assert(img[p + 8 + bl] == nb.push(0u8)[bl]);
    assert(has_zero_from(img, p + 8));
    assert forall|m: int| p + 8 <= m < p + 8 + bl implies img[m] != 0 by {
        assert(img[p + 8 + (m - p - 8)] == nb.push(0u8)[m - p - 8]);
        assert(nb[m - p - 8] != 0);
    }
    lemma_stored_name(img, p + 8, p + 8 + bl, qb);
    assert(img.subrange(p + 8, p + 8 + bl) =~= nb) by {
        assert forall|m: int| 0 <= m < bl implies img.subrange(p + 8, p + 8 + bl)[m] == nb[m] by {
            assert(img[p + 8 + m] == nb.push(0u8)[m]);
        }
    }
    lemma_name_bytes_injective(es[i].0, name);
    assert(num_bytes(order, es[i].1).len() == 8);
    lemma_read_holds(img, p + 8 + bl + 1, es[i].1, order);
    let nx = next_in_bucket(ts, es, i, n);
    assert(link_holds(img, ts, es, i, link_to(ts, es, nx), order));
    lemma_read_holds(img, p, link_to(ts, es, nx), order);
}

/// A walk for `name` that reaches entry `i` of its bucket, having passed
/// no entry that carries `name`, finds what `expected_find` says.
proof fn lemma_walk_entry(img: Seq<u8>, ts: u64, es: Seq<Entry>, cs: Seq<Seq<u8>>, name: Seq<char>, i: int, fuel: nat, order: ByteOrder)
    requires
        reads_back(order),
        ts > 0,
        offsets_fit(ts, es),
        sizes_match(es, cs),
        names_without_zero(es),
        links_written(img, ts, es, cs, es.len() as int, order),
        0 <= i < es.len(),
        fuel >= es.len() - i,
        bucket_of(ts, es[i].0) == bucket_of(ts, name),
        forall|j: int| 0 <= j < i && bucket_of(ts, #[trigger] es[j].0) == bucket_of(ts, name) ==> es[j].0 != name,
    ensures
        walk(img, entry_pos(ts, es, i), name_bytes(name), fuel) == Some(expected_find(ts, es, name)),
    decreases es.len() - i,
{
    let n = es.len() as int;
    let p = entry_pos(ts, es, i);
    let qb = name_bytes(name);
    lemma_entry_node(img, ts, es, cs, name, i, order);
    lemma_first_named(es, name, n);
    if es[i].0 == name {
        if let Some(m) = first_named(es, name, n) {
            assert(m == i);
        }
        assert(stored_name_is(img, p + 8, qb));
        assert(walk(img, p, qb, fuel) == Some(Some((align_up(p + 8 + qb.len() + 1 + 8), read_u64(img, p + 8 + qb.len() + 1)))));
    } else {
        assert(walk(img, p, qb, fuel) == walk(img, read_u64(img, p) as int, qb, (fuel - 1) as nat));
        let nx = next_in_bucket(ts, es, i, n);
        lemma_next_in_bucket(ts, es, i, n);
        match nx {
            Some(j) => {
                lemma_entry_pos_grows(ts, es, j, n);
                lemma_entry_pos_grows(ts, es, 0, j);
                assert forall|m: int| 0 <= m < j && bucket_of(ts, #[trigger] es[m].0) == bucket_of(ts, name)
                    implies es[m].0 != name by {
                    if i < m {
                        assert(bucket_of(ts, es[m].0) != bucket_of(ts, es[i].0));
                    }
                }
                lemma_walk_entry(img, ts, es, cs, name, j, (fuel - 1) as nat, order);
                assert(read_u64(img, p) as int == entry_pos(ts, es, j));
            },
            None => {
                if let Some(m) = first_named(es, name, n) {
                    assert(bucket_of(ts, es[m].0) == bucket_of(ts, name));
                    if i < m {
                        assert(bucket_of(ts, es[m].0) != bucket_of(ts, es[i].0));
                    }
                }
            },
        }
    }
}

/// Each file's contents stand, whole, at their place in a built image.
proof fn lemma_contents_in_place(ts: u64, es: Seq<Entry>, cs: Seq<Seq<u8>>, order: ByteOrder)
    requires
        ts > 0,
        offsets_fit(ts, es),
        sizes_match(es, cs),
    ensures
        forall|i: int|
            0 <= i < es.len() ==> #[trigger] content_start(entry_pos(ts, es, i), name_bytes(es[i].0).len() as int)
                + es[i].1 <= layout_image(ts, es, cs, order).len(),
        forall|i: int|
            0 <= i < es.len() ==> {
                let start = content_start(entry_pos(ts, es, i), name_bytes(es[i].0).len() as int);
                layout_image(ts, es, cs, order).subrange(start, start + es[i].1) == #[trigger] cs[i]
            },
{
    let n = es.len() as int;
    let img = layout_image(ts, es, cs, order);
    lemma_links_written(ts, es, cs, n, order);
    assert forall|i: int| 0 <= i < n implies #[trigger] content_start(entry_pos(ts, es, i), name_bytes(es[i].0).len() as int)
        + es[i].1 <= img.len() by {
        lemma_entry_pos_grows(ts, es, i + 1, n);
    }
    assert forall|i: int| 0 <= i < n implies {
        let start = content_start(entry_pos(ts, es, i), name_bytes(es[i].0).len() as int);
        img.subrange(start, start + es[i].1) == #[trigger] cs[i]
    } by {
        lemma_entry_pos_grows(ts, es, i + 1, n);
        let start = content_start(entry_pos(ts, es, i), name_bytes(es[i].0).len() as int);
        assert(body_holds(img, ts, es, cs, i, order));
        assert(cs[i].len() == es[i].1);
        assert forall|m: int| 0 <= m < es[i].1 implies img.subrange(start, start + es[i].1)[m] == cs[i][m] by {
            assert(img[start + m] == cs[i][m]);
        }
        assert(img.subrange(start, start + es[i].1) =~= cs[i]);
    }
}

/// Looking a name up in a built image is defined and finds the contents of
/// the first file added under that name, or nothing if none was; the image
/// ends with the table size, and holds every file's contents where the
/// lookup says they are.
pub proof fn lemma_lookup_after_build(ts: u64, es: Seq<Entry>, cs: Seq<Seq<u8>>, name: Seq<char>, order: ByteOrder)
    requires
        reads_back(order),
        ts > 0,
        offsets_fit(ts, es),
        sizes_match(es, cs),
        names_without_zero(es),
    ensures
        layout_image(ts, es, cs, order).len() == trailer_pos(ts, es) + 8,
        read_u64(layout_image(ts, es, cs, order), trailer_pos(ts, es)) == ts,
        lookup_defined(layout_image(ts, es, cs, order), ts, name),
        lookup_result(layout_image(ts, es, cs, order), ts, name) == expected_find(ts, es, name),
        forall|i: int|
            0 <= i < es.len() ==> #[trigger] content_start(entry_pos(ts, es, i), name_bytes(es[i].0).len() as int)
                + es[i].1 <= layout_image(ts, es, cs, order).len(),
        forall|i: int|
            0 <= i < es.len() ==> {
                let start = content_start(entry_pos(ts, es, i), name_bytes(es[i].0).len() as int);
                layout_image(ts, es, cs, order).subrange(start, start + es[i].1) == #[trigger] cs[i]
            },
{
    let n = es.len() as int;
    let img = layout_image(ts, es, cs, order);
    lemma_links_written(ts, es, cs, n, order);
    lemma_read_holds(img, trailer_pos(ts, es), ts, order);
    lemma_entry_pos_grows(ts, es, 0, n);
    let b = bucket_of(ts, name);
    let first = first_in_bucket(ts, es, b, n);
    assert(slot_holds(img, b, link_to(ts, es, first), order));
    lemma_read_holds(img, b * 8, link_to(ts, es, first), order);
    lemma_first_in_bucket(ts, es, b, n);
    lemma_first_named(es, name, n);
    let fuel = (n + 1) as nat;
    match first {
        Some(i0) => {
            lemma_entry_pos_grows(ts, es, i0, n);
            lemma_walk_entry(img, ts, es, cs, name, i0, fuel, order);
        },
        None => {
            if let Some(m) = first_named(es, name, n) {
                assert(bucket_of(ts, es[m].0) == b);
            }
        },
    }
    assert(lookup_walk(img, ts, name, fuel) == Some(expected_find(ts, es, name)));
    let f = choose|f: nat| #[trigger] lookup_walk(img, ts, name, f) is Some;
    let start = read_u64(img, slot_of(ts, name)) as int;
    lemma_walk_enough_fuel(img, start, name_bytes(name), fuel);
    lemma_walk_enough_fuel(img, start, name_bytes(name), f);
    lemma_contents_in_place(ts, es, cs, order);
}

/// The same for the image of a builder: the table size stored at its end
/// is the builder's, and looking any name up finds the place of the first
/// file added under it, which lies inside the image and holds that file's
/// contents, or nothing if no file was added under it.
pub proof fn lemma_builder_round_trip(b: &HashBuilder, cs: Seq<Seq<u8>>, name: Seq<char>, order: ByteOrder)
    requires
        reads_back(order),
        b.wf(),
        b.spec_table_size() > 0,
        sizes_match(b.entries(), cs),
        names_without_zero(b.entries()),
    ensures
        ({
            let img = layout_image(b.spec_table_size(), b.entries(), cs, order);
            &&& img.len() == b.spec_append_pos() + 8
            &&& read_u64(img, img.len() - 8) == b.spec_table_size()
            &&& lookup_defined(img, b.spec_table_size(), name)
            &&& lookup_result(img, b.spec_table_size(), name) == expected_find(b.spec_table_size(), b.entries(), name)
            &&& match first_named(b.entries(), name, b.entries().len() as int) {
                Some(i) => {
                    let start = content_start(
                        entry_pos(b.spec_table_size(), b.entries(), i),
                        name_bytes(b.entries()[i].0).len() as int,
                    );
                    &&& start + b.entries()[i].1 <= img.len()
                    &&& img.subrange(start, start + b.entries()[i].1) == cs[i]
                },
                None => true,
            }
        }),
{
    b.lemma_layout();
    lemma_lookup_after_build(b.spec_table_size(), b.entries(), cs, name, order);
    lemma_first_named(b.entries(), name, b.entries().len() as int);
    if let Some(i) = first_named(b.entries(), name, b.entries().len() as int) {
        assert(cs[i] == cs[i]);
    }
}

/// Looking up a name in a built image finds the whole contents of the first
/// file added under that name: a place that starts on a multiple of 32, is
/// exactly as long as the file, lies inside the image, and holds exactly the
/// file's bytes.
pub proof fn lemma_lookup_finds_whole_file(
    ts: u64,
    es: Seq<Entry>,
    cs: Seq<Seq<u8>>,
    name: Seq<char>,
    i: int,
    order: ByteOrder,
)
    requires
        reads_back(order),
        ts > 0,
        offsets_fit(ts, es),
        trailer_pos(ts, es) + 8 <= usize::MAX,
        sizes_match(es, cs),
        names_without_zero(es),
        0 <= i < es.len(),
        es[i].0 == name,
        forall|j: int| 0 <= j < i ==> #[trigger] es[j].0 != name,
    ensures
        place_of(lookup_result(layout_image(ts, es, cs, order), ts, name)).0 % 32 == 0,
        place_of(lookup_result(layout_image(ts, es, cs, order), ts, name)).1 == cs[i].len(),
        place_of(lookup_result(layout_image(ts, es, cs, order), ts, name)).0 + cs[i].len()
            <= layout_image(ts, es, cs, order).len(),
        layout_image(ts, es, cs, order).subrange(
            place_of(lookup_result(layout_image(ts, es, cs, order), ts, name)).0,
            place_of(lookup_result(layout_image(ts, es, cs, order), ts, name)).0 + cs[i].len(),
        ) == cs[i],
{
    let n = es.len() as int;
    lemma_lookup_after_build(ts, es, cs, name, order);
    lemma_first_named(es, name, n);
    if let Some(m) = first_named(es, name, n) {
        assert(m == i);
    }
    lemma_entry_pos_grows(ts, es, 0, i);
    lemma_entry_pos_grows(ts, es, i + 1, n);
    lemma_content_start_aligned(entry_pos(ts, es, i), name_bytes(es[i].0).len() as int);
    assert(cs[i] == cs[i]);
}

/// Looking up a name that no file was added under, in a built image, gives
/// the empty place at offset 0.
pub proof fn lemma_lookup_absent_name(ts: u64, es: Seq<Entry>, cs: Seq<Seq<u8>>, name: Seq<char>, order: ByteOrder)
    requires
        reads_back(order),
        ts > 0,
        offsets_fit(ts, es),
        sizes_match(es, cs),
        names_without_zero(es),
        forall|j: int| 0 <= j < es.len() ==> #[trigger] es[j].0 != name,
    ensures
        place_of(lookup_result(layout_image(ts, es, cs, order), ts, name)) == (0int, 0int),
{
    lemma_lookup_after_build(ts, es, cs, name, order);
    lemma_first_named(es, name, es.len() as int);
}

/// In a built image, the slot at 8 times an added name's 64-bit hash modulo
/// the number of buckets leads to an entry, and to none later than the
/// first file added under that name; every file's contents start on a
/// multiple of 32, at most 31 bytes after the end of its size field.
pub proof fn lemma_image_slots_and_alignment(ts: u64, es: Seq<Entry>, cs: Seq<Seq<u8>>, order: ByteOrder)
    requires
        reads_back(order),
        ts > 0,
        offsets_fit(ts, es),
        sizes_match(es, cs),
    ensures
        forall|i: int|
            0 <= i < es.len() ==> {
                let slot = (hash_chars(#[trigger] es[i].0) as int % ts as int) * 8;
                &&& 0 < read_u64(layout_image(ts, es, cs, order), slot)
                &&& read_u64(layout_image(ts, es, cs, order), slot) <= entry_pos(ts, es, i)
            },
        forall|i: int|
            0 <= i < es.len() ==> {
                let size_end = entry_pos(ts, es, i) + 8 + name_bytes(es[i].0).len() + 1 + 8;
                let start = #[trigger] content_start(entry_pos(ts, es, i), name_bytes(es[i].0).len() as int);
                &&& start % 32 == 0
                &&& size_end <= start < size_end + 32
            },
{
    let n = es.len() as int;
    let img = layout_image(ts, es, cs, order);
    lemma_image_layout(ts, es, cs, order);
    assert forall|i: int| 0 <= i < n implies {
        let slot = (hash_chars(#[trigger] es[i].0) as int % ts as int) * 8;
        &&& 0 < read_u64(img, slot)
        &&& read_u64(img, slot) <= entry_pos(ts, es, i)
    } by {
        let b = bucket_of(ts, es[i].0);
        lemma_bucket_is_hash_mod(ts, es[i].0);
        lemma_first_in_bucket(ts, es, b, n);
        assert(slot_holds(img, b, link_to(ts, es, first_in_bucket(ts, es, b, n)), order));
        lemma_read_holds(img, b * 8, link_to(ts, es, first_in_bucket(ts, es, b, n)), order);
        if let Some(j) = first_in_bucket(ts, es, b, n) {
            lemma_entry_pos_grows(ts, es, j, i);
            lemma_entry_pos_grows(ts, es, 0, j);
            lemma_entry_pos_grows(ts, es, j, n);
        }
    }
    assert forall|i: int| 0 <= i < n implies {
        let size_end = entry_pos(ts, es, i) + 8 + name_bytes(es[i].0).len() + 1 + 8;
        let start = #[trigger] content_start(entry_pos(ts, es, i), name_bytes(es[i].0).len() as int);
        &&& start % 32 == 0
        &&& size_end <= start < size_end + 32
    } by {
        lemma_entry_pos_grows(ts, es, 0, i);
        lemma_content_start_aligned(entry_pos(ts, es, i), name_bytes(es[i].0).len() as int);
    }
}

} // verus!
