//! Building the table: every added file gets an entry at the end of the
//! image, and is linked into the chain of the bucket that its name hashes to.

use vstd::prelude::*;
use vstd::utf8::encode_utf8;
use vstd::string::StringSliceAdditionalSpecFns;
use crate::hashing::{hash, hash_chars};
use crate::layout::{align, align_up};
use crate::order::ByteOrder;
use crate::image::{image_with_entries, image_with_links, layout_image, pack_bytes, pack_str, pack_u64, put, views};

verus! {

/// A file as the builder records it: its name and its size in bytes.
pub type Entry = (Seq<char>, u64);

/// The bytes that stand for a name in the image: its UTF-8 encoding.
pub open spec fn name_bytes(name: Seq<char>) -> Seq<u8> {
    encode_utf8(name)
}

/// The bucket of a name in a table of `ts` buckets.
pub open spec fn bucket_of(ts: u64, name: Seq<char>) -> int {
    (hash_chars(name) % ts) as int
}

/// Where the contents of an entry start that begins at `pos` and whose name
/// takes `name_len` bytes: after the link, the name, its terminating zero
/// and the size, rounded up to the alignment.
pub open spec fn content_start(pos: int, name_len: int) -> int {
    align_up(pos + 8 + name_len + 1 + 8)
}

/// An entry's contents start at the first multiple of 32 that is not below
/// the end of its size field.
pub proof fn lemma_content_start_aligned(pos: int, name_len: int)
    requires
        0 <= pos,
        0 <= name_len,
    ensures
        content_start(pos, name_len) % 32 == 0,
        pos + 8 + name_len + 1 + 8 <= content_start(pos, name_len) < pos + 8 + name_len + 1 + 8 + 32,
{
}

/// A name's bucket is its whole 64-bit hash modulo the number of buckets.
pub proof fn lemma_bucket_is_hash_mod(ts: u64, name: Seq<char>)
    requires
        ts > 0,
    ensures
        bucket_of(ts, name) == (hash_chars(name) as int) % (ts as int),
        0 <= bucket_of(ts, name) < ts,
{
}

/// The offset just past an entry that begins at `pos`.
pub open spec fn entry_end(pos: int, name_len: int, size: int) -> int {
    content_start(pos, name_len) + size
}

/// Where entry `i` begins: the first right after the bucket table,
/// each later one right after its predecessor.
pub open spec fn entry_pos(ts: u64, es: Seq<Entry>, i: int) -> int
    decreases i,
{
    if i <= 0 {
        ts * 8
    } else {
        entry_end(
            entry_pos(ts, es, i - 1),
            name_bytes(es[i - 1].0).len() as int,
            es[i - 1].1 as int,
        )
    }
}

/// The last of the first `k` entries that falls into bucket `b`.
pub open spec fn last_in_bucket(ts: u64, es: Seq<Entry>, b: int, k: int) -> Option<int>
    decreases k,
{
    if k <= 0 {
        None
    } else if bucket_of(ts, es[k - 1].0) == b {
        Some(k - 1)
    } else {
        last_in_bucket(ts, es, b, k - 1)
    }
}

/// The place that the next entry of bucket `b` is linked from, after the
/// first `k` entries: the link field of the last entry in the bucket, or the
/// bucket's own slot while the bucket is empty.
pub open spec fn chain_tail(ts: u64, es: Seq<Entry>, b: int, k: int) -> int {
    match last_in_bucket(ts, es, b, k) {
        Some(j) => entry_pos(ts, es, j),
        None => b * 8,
    }
}

pub proof fn lemma_entry_pos_grows(ts: u64, es: Seq<Entry>, i: int, j: int)
    requires
        0 <= i <= j,
    ensures
        entry_pos(ts, es, i) <= entry_pos(ts, es, j),
        i < j ==> entry_pos(ts, es, i) + 17 <= entry_pos(ts, es, j),
    decreases j - i,
{
    if i < j {
        lemma_entry_pos_grows(ts, es, i, j - 1);
    }
}

pub proof fn lemma_entry_pos_prefix(ts: u64, es: Seq<Entry>, e: Entry, i: int)
    requires
        0 <= i <= es.len(),
    ensures
        entry_pos(ts, es.push(e), i) == entry_pos(ts, es, i),
    decreases i,
{
    if i > 0 {
        lemma_entry_pos_prefix(ts, es, e, i - 1);
        assert(es.push(e)[i - 1] == es[i - 1]);
    }
}

pub proof fn lemma_last_in_bucket_prefix(ts: u64, es: Seq<Entry>, e: Entry, b: int, k: int)
    requires
        0 <= k <= es.len(),
    ensures
        last_in_bucket(ts, es.push(e), b, k) == last_in_bucket(ts, es, b, k),
    decreases k,
{
    if k > 0 {
        lemma_last_in_bucket_prefix(ts, es, e, b, k - 1);
        assert(es.push(e)[k - 1] == es[k - 1]);
    }
}

pub proof fn lemma_chain_tail_prefix(ts: u64, es: Seq<Entry>, e: Entry, b: int, k: int)
    requires
        0 <= k <= es.len(),
    ensures
        chain_tail(ts, es.push(e), b, k) == chain_tail(ts, es, b, k),
{
    lemma_last_in_bucket_prefix(ts, es, e, b, k);
    lemma_last_in_bucket_range(ts, es, b, k);
    if let Some(j) = last_in_bucket(ts, es, b, k) {
        lemma_entry_pos_prefix(ts, es, e, j);
    }
}

pub proof fn lemma_last_in_bucket_range(ts: u64, es: Seq<Entry>, b: int, k: int)
    ensures
        last_in_bucket(ts, es, b, k) matches Some(j) ==> 0 <= j < k && bucket_of(ts, es[j].0) == b,
    decreases k,
{
    if k > 0 {
        lemma_last_in_bucket_range(ts, es, b, k - 1);
    }
}

/// Collects files into a hash table image. Entries are laid out one after
/// another behind a table of `table_size` bucket slots of 8 bytes each; each
/// bucket's entries form a chain through their link fields, in the order in
/// which they were added.
pub struct HashBuilder {
    table_size: u64,
    next_pointers: Vec<u64>,
    chain_links: Vec<(u64, u64)>,
    file_dest: Vec<(String, u64)>,
    file_sizes: Vec<u64>,
    append_pos: u64,
}

impl HashBuilder {
    /// The number of buckets.
    pub closed spec fn spec_table_size(&self) -> u64 {
        self.table_size
    }

    /// The files added so far, in the order of adding.
    pub closed spec fn entries(&self) -> Seq<Entry> {
        Seq::new(self.file_dest@.len(), |i: int| (self.file_dest@[i].0@, self.file_sizes@[i]))
    }

    /// Where the next entry would begin, which is also where the table size
    /// is stored at the end of the image.
    pub closed spec fn spec_append_pos(&self) -> u64 {
        self.append_pos
    }

    /// The builder's bookkeeping agrees with its entries.
    #[verifier::opaque]
    pub closed spec fn wf(&self) -> bool {
        let ts = self.table_size;
        let es = self.entries();
        let n = es.len() as int;
        &&& self.file_sizes@.len() == self.file_dest@.len()
        &&& n > 0 ==> ts > 0
        &&& self.next_pointers@.len() == ts
        &&& self.chain_links@.len() == n
        &&& self.append_pos == entry_pos(ts, es, n)
        &&& forall|b: int| 0 <= b < ts ==> #[trigger] self.next_pointers@[b] == chain_tail(ts, es, b, n)
        &&& forall|i: int|
            0 <= i < n ==> {
                &&& (#[trigger] self.chain_links@[i]).0 == chain_tail(ts, es, bucket_of(ts, es[i].0), i)
                &&& self.chain_links@[i].1 == entry_pos(ts, es, i)
            }
        &&& forall|i: int| 0 <= i < n ==> (#[trigger] self.file_dest@[i]).1 == entry_pos(ts, es, i) + 8
    }

    /// An empty table of `table_size` buckets; entries will start right
    /// after the bucket slots.
    pub fn new(table_size: u64) -> (b: HashBuilder)
        requires
            table_size * 8 <= u64::MAX,
        ensures
            b.wf(),
            b.spec_table_size() == table_size,
            b.entries() == Seq::<Entry>::empty(),
            b.spec_append_pos() == table_size * 8,
    {
        let mut next_pointers: Vec<u64> = Vec::new();
        let mut i: u64 = 0;
        while i < table_size
            invariant
                i <= table_size,
                table_size * 8 <= u64::MAX,
                next_pointers@.len() == i,
                forall|b: int| 0 <= b < i ==> #[trigger] next_pointers@[b] == b * 8,
            decreases table_size - i,
        {
            next_pointers.push(i * 8);
            i = i + 1;
        }
        let b = HashBuilder {
            table_size: table_size,
            next_pointers: next_pointers,
            chain_links: Vec::new(),
            file_dest: Vec::new(),
            file_sizes: Vec::new(),
            append_pos: table_size * 8,
        };
        assert(b.entries() =~= Seq::<Entry>::empty());
        proof {
            reveal(HashBuilder::wf);
        }
        b
    }

    /// Records a file of `size` bytes under `filename`: it is linked at the
    /// end of its bucket's chain and placed at the end of the image.
    pub fn add(&mut self, filename: &str, size: u64)
        requires
            old(self).wf(),
            old(self).spec_table_size() > 0,
            name_bytes(filename@).len() <= usize::MAX,
            entry_end(old(self).spec_append_pos() as int, name_bytes(filename@).len() as int, size as int)
                <= u64::MAX,
        ensures
            final(self).wf(),
            final(self).spec_table_size() == old(self).spec_table_size(),
            final(self).entries() == old(self).entries().push((filename@, size)),
            final(self).spec_append_pos() == entry_end(
                old(self).spec_append_pos() as int,
                name_bytes(filename@).len() as int,
                size as int,
            ),
    {
        proof {
            reveal(HashBuilder::wf);
            assert(self.next_pointers.len() == self.table_size);
        }
        let name_hash = hash(filename);
        let bucket = (name_hash % self.table_size) as usize;
        let tail = self.next_pointers[bucket];
        self.chain_links.push((tail, self.append_pos));
        self.next_pointers.set(bucket, self.append_pos);
        let mut file_pos = self.append_pos + 8;
        self.file_dest.push((filename.to_owned(), file_pos));
        self.file_sizes.push(size);
        file_pos = file_pos + filename.len() as u64 + 1 + 8;
        file_pos = align(file_pos);
        self.append_pos = file_pos + size;
        proof {
            assert(filename.len() == name_bytes(filename@).len());
            assert(bucket as int == bucket_of(self.table_size, filename@));
            lemma_add_keeps_wf(*old(self), *self, filename@, size, bucket as int);
        }
    }

    /// For each bucket, where its next entry will be linked from.
    pub closed spec fn spec_next_pointers(&self) -> Seq<u64> {
        self.next_pointers@
    }

    /// For each entry, the place its link is written to and where the entry
    /// begins.
    pub closed spec fn spec_chain_links(&self) -> Seq<(u64, u64)> {
        self.chain_links@
    }

    /// For each entry, where its name is written.
    pub closed spec fn spec_name_offsets(&self) -> Seq<u64> {
        self.file_dest@.map_values(|d: (String, u64)| d.1)
    }

    /// The builder's bookkeeping, spelled out: entries end where the table
    /// size will be stored; each bucket's next entry is linked from the link
    /// field of its last entry so far, or from its slot; entry `i` is linked
    /// from the link field of the entry before it in its bucket, or from the
    /// bucket's slot; each name is written right after its entry's link
    /// field; and a builder with entries has buckets.
    pub proof fn lemma_layout(&self)
        requires
            self.wf(),
        ensures
            self.spec_append_pos() == entry_pos(self.spec_table_size(), self.entries(), self.entries().len() as int),
            self.entries().len() > 0 ==> self.spec_table_size() > 0,
            self.spec_next_pointers().len() == self.spec_table_size(),
            forall|b: int|
                0 <= b < self.spec_table_size() ==> #[trigger] self.spec_next_pointers()[b] == chain_tail(
                    self.spec_table_size(),
                    self.entries(),
                    b,
                    self.entries().len() as int,
                ),
            self.spec_chain_links().len() == self.entries().len(),
            forall|i: int|
                0 <= i < self.entries().len() ==> {
                    &&& (#[trigger] self.spec_chain_links()[i]).0 == chain_tail(
                        self.spec_table_size(),
                        self.entries(),
                        bucket_of(self.spec_table_size(), self.entries()[i].0),
                        i,
                    )
                    &&& self.spec_chain_links()[i].1 == entry_pos(self.spec_table_size(), self.entries(), i)
                },
            self.spec_name_offsets().len() == self.entries().len(),
            forall|i: int|
                0 <= i < self.entries().len() ==> #[trigger] self.spec_name_offsets()[i] == entry_pos(
                    self.spec_table_size(),
                    self.entries(),
                    i,
                ) + 8,
    {
        reveal(HashBuilder::wf);
        assert forall|i: int| 0 <= i < self.entries().len() implies #[trigger] self.spec_name_offsets()[i]
            == entry_pos(self.spec_table_size(), self.entries(), i) + 8 by {
            assert(self.file_dest@[i].1 == entry_pos(self.spec_table_size(), self.entries(), i) + 8);
        }
    }

    /// The number of files added so far.
    pub fn file_count(&self) -> (n: usize)
        ensures
            n == self.entries().len(),
    {
        self.file_dest.len()
    }

    /// The name of the `i`-th file added.
    pub fn file_name(&self, i: usize) -> (name: &str)
        requires
            i < self.entries().len(),
        ensures
            name@ == self.entries()[i as int].0,
    {
        self.file_dest[i].0.as_str()
    }

    /// The size recorded for the `i`-th file added.
    pub fn file_size(&self, i: usize) -> (size: u64)
        requires
            self.wf(),
            i < self.entries().len(),
        ensures
            size == self.entries()[i as int].1,
    {
        proof {
            reveal(HashBuilder::wf);
        }
        self.file_sizes[i]
    }

    /// Where the next entry would begin; the image is 8 bytes longer.
    pub fn append_pos(&self) -> (pos: u64)
        ensures
            pos == self.spec_append_pos(),
    {
        self.append_pos
    }

    /// Whether `add` can take a file of `size` bytes under `filename`: the
    /// table has buckets, and the new end of the image fits in 64 bits.
    pub fn can_add(&self, filename: &str, size: u64) -> (ok: bool)
        requires
            name_bytes(filename@).len() <= usize::MAX,
        ensures
            ok == (self.spec_table_size() > 0 && entry_end(
                self.spec_append_pos() as int,
                name_bytes(filename@).len() as int,
                size as int,
            ) <= u64::MAX),
    {
        if self.table_size == 0 {
            return false;
        }
        let name_len = filename.len() as u128;
        let header_end: u128 = self.append_pos as u128 + 8 + name_len + 1 + 8;
        let rem = header_end % 32;
        let start: u128 = if rem == 0 { header_end } else { header_end - rem + 32 };
        start + size as u128 <= u64::MAX as u128
    }

    /// The complete image of the table, given the contents of every added
    /// file in the order of adding, with its numbers in `order`.
    pub fn image(&self, contents: &Vec<Vec<u8>>, order: ByteOrder) -> (img: Vec<u8>)
        requires
            self.wf(),
            contents@.len() == self.entries().len(),
            forall|i: int| 0 <= i < contents@.len() ==> #[trigger] contents@[i]@.len() == self.entries()[i].1,
            self.spec_append_pos() + 8 <= usize::MAX,
        ensures
            img@ == layout_image(self.spec_table_size(), self.entries(), views(contents@), order),
    {
        proof {
            reveal(HashBuilder::wf);
        }
        let ghost ts = self.table_size;
        let ghost es = self.entries();
        let ghost cv = views(contents@);
        let ghost n = es.len() as int;
        let total = (self.append_pos + 8) as usize;
        let mut img: Vec<u8> = vec![0u8; total];
        assert(img@ =~= Seq::new((entry_pos(ts, es, n) + 8) as nat, |k: int| 0u8));
        pack_u64(&mut img, self.append_pos as usize, self.table_size, order);
        let mut i: usize = 0;
        while i < self.file_dest.len()
            invariant
                self.wf(),
                ts == self.table_size,
                es == self.entries(),
                n == es.len(),
                cv == views(contents@),
                contents@.len() == n,
                forall|j: int| 0 <= j < contents@.len() ==> #[trigger] contents@[j]@.len() == es[j].1,
                self.append_pos + 8 <= usize::MAX,
                i <= n,
                img.len() == total,
                total == self.append_pos + 8,
                img@ == image_with_entries(ts, es, cv, i as int, order),
            decreases n - i,
        {
            proof {
                reveal(HashBuilder::wf);
                lemma_entry_pos_grows(ts, es, i + 1, n);
                lemma_entry_pos_grows(ts, es, 0, i as int);
                assert(self.file_dest@[i as int].1 == entry_pos(ts, es, i as int) + 8);
                assert(es[i as int] == (self.file_dest@[i as int].0@, self.file_sizes@[i as int]));
            }
            let name: &str = self.file_dest[i].0.as_str();
            let offset = self.file_dest[i].1;
            let size = self.file_sizes[i];
            pack_str(&mut img, offset as usize, name);
            let size_at = offset + name.len() as u64 + 1;
            pack_u64(&mut img, size_at as usize, size, order);
            let start = align(size_at + 8);
            pack_bytes(&mut img, start as usize, contents[i].as_slice());
            proof {
                assert(cv[i as int] == contents@[i as int]@);
            }
            i = i + 1;
        }
        let mut i: usize = 0;
        while i < self.chain_links.len()
            invariant
                self.wf(),
                ts == self.table_size,
                es == self.entries(),
                n == es.len(),
                cv == views(contents@),
                i <= n,
                img.len() == total,
                total == self.append_pos + 8,
                img@ == image_with_links(ts, es, cv, i as int, order),
            decreases n - i,
        {
            proof {
                reveal(HashBuilder::wf);
                let b = bucket_of(ts, es[i as int].0);
                lemma_last_in_bucket_range(ts, es, b, i as int);
                if let Some(j) = last_in_bucket(ts, es, b, i as int) {
                    lemma_entry_pos_grows(ts, es, j, n);
                } else {
                    lemma_entry_pos_grows(ts, es, 0, n);
                }
            }
            let link = self.chain_links[i];
            pack_u64(&mut img, link.0 as usize, link.1, order);
            i = i + 1;
        }
        img
    }
}

/// Moving a bucket's tail to the new entry keeps every bucket's tail right.
proof fn lemma_add_tails(ts: u64, es: Seq<Entry>, e: Entry, np: Seq<u64>, b: int, pos: u64)
    requires
        pos == entry_pos(ts, es, es.len() as int),
        np.len() == ts,
        0 <= b < ts,
        b == bucket_of(ts, e.0),
        forall|bb: int| 0 <= bb < ts ==> #[trigger] np[bb] == chain_tail(ts, es, bb, es.len() as int),
    ensures
        forall|bb: int|
            0 <= bb < ts ==> #[trigger] np.update(b, pos)[bb]
                == chain_tail(ts, es.push(e), bb, es.len() + 1 as int),
{
    let n = es.len() as int;
    let es2 = es.push(e);
    assert(es2[n] == e);
    lemma_entry_pos_prefix(ts, es, e, n);
    assert forall|bb: int| 0 <= bb < ts implies #[trigger] np.update(b, pos)[bb]
        == chain_tail(ts, es2, bb, n + 1) by {
        lemma_chain_tail_prefix(ts, es, e, bb, n);
        assert(np[bb] == chain_tail(ts, es, bb, n));
        if bb != b {
            assert(last_in_bucket(ts, es2, bb, n + 1) == last_in_bucket(ts, es2, bb, n));
        }
    }
}

/// The links recorded before the new entry keep their meaning, and the new
/// link goes from the bucket's old tail to the new entry.
proof fn lemma_add_links(ts: u64, es: Seq<Entry>, e: Entry, links: Seq<(u64, u64)>, tail: u64, pos: u64)
    requires
        pos == entry_pos(ts, es, es.len() as int),
        links.len() == es.len(),
        tail == chain_tail(ts, es, bucket_of(ts, e.0), es.len() as int),
        forall|i: int|
            0 <= i < es.len() ==> {
                &&& (#[trigger] links[i]).0 == chain_tail(ts, es, bucket_of(ts, es[i].0), i)
                &&& links[i].1 == entry_pos(ts, es, i)
            },
    ensures
        forall|i: int|
            0 <= i < es.len() + 1 ==> {
                &&& (#[trigger] links.push((tail, pos))[i]).0
                    == chain_tail(ts, es.push(e), bucket_of(ts, es.push(e)[i].0), i)
                &&& links.push((tail, pos))[i].1 == entry_pos(
                    ts,
                    es.push(e),
                    i,
                )
            },
{
    let n = es.len() as int;
    let es2 = es.push(e);
    let l2 = links.push((tail, pos));
    assert forall|i: int| 0 <= i < n + 1 implies {
        &&& (#[trigger] l2[i]).0 == chain_tail(ts, es2, bucket_of(ts, es2[i].0), i)
        &&& l2[i].1 == entry_pos(ts, es2, i)
    } by {
        lemma_entry_pos_prefix(ts, es, e, i);
        lemma_chain_tail_prefix(ts, es, e, bucket_of(ts, es2[i].0), i);
        if i < n {
            assert(es2[i] == es[i]);
            assert(l2[i] == links[i]);
        } else {
            assert(es2[i] == e);
        }
    }
}

/// The new entry's recorded offset is where it begins, plus its link field.
proof fn lemma_add_dest(ts: u64, es: Seq<Entry>, e: Entry, dest: Seq<(String, u64)>, nd: Seq<(String, u64)>)
    requires
        dest.len() == es.len(),
        nd.len() == es.len() + 1,
        forall|i: int| 0 <= i < es.len() ==> nd[i] == dest[i],
        nd[es.len() as int].1 == entry_pos(ts, es, es.len() as int) + 8,
        forall|i: int| 0 <= i < es.len() ==> (#[trigger] dest[i]).1 == entry_pos(ts, es, i) + 8,
    ensures
        forall|i: int| 0 <= i < es.len() + 1 ==> (#[trigger] nd[i]).1 == entry_pos(ts, es.push(e), i) + 8,
{
    let n = es.len() as int;
    assert forall|i: int| 0 <= i < n + 1 implies (#[trigger] nd[i]).1 == entry_pos(ts, es.push(e), i) + 8 by {
        lemma_entry_pos_prefix(ts, es, e, i);
        if i < n {
            assert(nd[i] == dest[i]);
        }
    }
}

/// What `add` does to the fields keeps the builder well formed and appends
/// one entry.
proof fn lemma_add_keeps_wf(ob: HashBuilder, nb: HashBuilder, name: Seq<char>, size: u64, b: int)
    requires
        ob.wf(),
        ob.table_size > 0,
        0 <= b < ob.table_size,
        b == bucket_of(ob.table_size, name),
        nb.table_size == ob.table_size,
        nb.next_pointers@ == ob.next_pointers@.update(b, ob.append_pos),
        nb.chain_links@ == ob.chain_links@.push((ob.next_pointers@[b], ob.append_pos)),
        nb.file_dest@.len() == ob.file_dest@.len() + 1,
        forall|i: int| 0 <= i < ob.file_dest@.len() ==> nb.file_dest@[i] == ob.file_dest@[i],
        nb.file_dest@[ob.file_dest@.len() as int].0@ == name,
        nb.file_dest@[ob.file_dest@.len() as int].1 == ob.append_pos + 8,
        nb.file_sizes@ == ob.file_sizes@.push(size),
        nb.append_pos == entry_end(ob.append_pos as int, name_bytes(name).len() as int, size as int),
    ensures
        nb.wf(),
        nb.entries() == ob.entries().push((name, size)),
{
    reveal(HashBuilder::wf);
    let ts = ob.table_size;
    let es = ob.entries();
    let n = es.len() as int;
    let e: Entry = (name, size);
    let es2 = nb.entries();
    assert(es2 =~= es.push(e));
    lemma_add_tails(ts, es, e, ob.next_pointers@, b, ob.append_pos);
    lemma_add_links(ts, es, e, ob.chain_links@, ob.next_pointers@[b], ob.append_pos);
    lemma_add_dest(ts, es, e, ob.file_dest@, nb.file_dest@);
    lemma_entry_pos_prefix(ts, es, e, n);
    assert(es2[n] == e);
    assert(entry_pos(ts, es2, n + 1) == nb.append_pos);
}

} // verus!
