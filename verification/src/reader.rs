//! Reading a table image: the table size is stored in its last 8 bytes, and
//! a name is found by walking the chain of its bucket from the bucket's slot.

use std::rc::Rc;
use vstd::prelude::*;
use crate::order::{from_native_bytes, from_ne_bytes};
use vstd::slice::slice_subrange;
use crate::builder::{bucket_of, name_bytes};
use crate::hashing::hash;
use crate::layout::{align, align_up};
use crate::chain::lemma_walk_enough_fuel;

verus! {

/// The number in the 8 bytes of `data` from `at` on, in the machine's
/// byte order.
pub open spec fn read_u64(data: Seq<u8>, at: int) -> u64 {
    from_ne_bytes(data.subrange(at, at + 8))
}

/// Some byte of `data` from `start` on is zero, so a name stored there ends.
pub open spec fn has_zero_from(data: Seq<u8>, start: int) -> bool {
    exists|k: int| start <= k < data.len() && data[k] == 0
}

/// The zero-terminated name stored at `start` is `q`.
pub open spec fn stored_name_is(data: Seq<u8>, start: int, q: Seq<u8>) -> bool {
    &&& 0 <= start
    &&& start + q.len() < data.len()
    &&& data.subrange(start, start + q.len()) == q
    &&& data[start + q.len()] == 0
    &&& forall|m: int| 0 <= m < q.len() ==> q[m] != 0
}

/// The outcome of following a chain from the entry at `offs` for at most
/// `fuel` entries, looking for the name `q`. `Some(Some((start, size)))`:
/// found, with its contents at `start` and of `size` bytes. `Some(None)`:
/// the chain ended without it. `None`: the chain reaches outside the image,
/// holds a name without an end, or is longer than `fuel`.
pub open spec fn walk(data: Seq<u8>, offs: int, q: Seq<u8>, fuel: nat) -> Option<Option<(int, u64)>>
    decreases fuel,
{
    if offs == 0 {
        Some(None)
    } else if fuel == 0 {
        None
    } else if !(0 < offs && offs + 8 <= data.len() && has_zero_from(data, offs + 8)) {
        None
    } else if stored_name_is(data, offs + 8, q) {
        let size_at = offs + 8 + q.len() + 1;
        if size_at + 8 <= data.len() {
            Some(Some((align_up(size_at + 8), read_u64(data, size_at))))
        } else {
            None
        }
    } else {
        walk(data, read_u64(data, offs) as int, q, (fuel - 1) as nat)
    }
}

/// Where the slot of the bucket of `name` is.
pub open spec fn slot_of(ts: u64, name: Seq<char>) -> int {
    bucket_of(ts, name) * 8
}

/// The walk for `name` from its bucket's slot, with `fuel`.
pub open spec fn lookup_walk(data: Seq<u8>, ts: u64, name: Seq<char>, fuel: nat) -> Option<Option<(int, u64)>> {
    walk(data, read_u64(data, slot_of(ts, name)) as int, name_bytes(name), fuel)
}

/// Looking `name` up in `data` ends, without dividing by zero or reading
/// outside the image.
pub open spec fn lookup_defined(data: Seq<u8>, ts: u64, name: Seq<char>) -> bool {
    &&& ts > 0
    &&& slot_of(ts, name) + 8 <= data.len()
    &&& exists|f: nat| #[trigger] lookup_walk(data, ts, name, f) is Some
}

/// What looking `name` up finds, where that is defined.
pub open spec fn lookup_result(data: Seq<u8>, ts: u64, name: Seq<char>) -> Option<(int, u64)> {
    lookup_walk(data, ts, name, choose|f: nat| #[trigger] lookup_walk(data, ts, name, f) is Some).unwrap()
}

/// The place that a lookup's outcome names: the found contents, or the
/// empty place at offset 0 where nothing was found.
pub open spec fn place_of(found: Option<(int, u64)>) -> (int, int) {
    match found {
        Some((start, size)) => (start, (size as usize) as int),
        None => (0, 0),
    }
}

/// A table image opened for lookups.
pub struct DiskHash {
    map: Rc<Vec<u8>>,
    table_size: u64,
}

/// The place of a file's contents in an image; empty where nothing was found.
pub struct Access {
    map: Rc<Vec<u8>>,
    offs: usize,
    len: usize,
}

/// Another handle on the same image, by `Rc::clone`, which points the new
/// handle at the same allocation: this claims only that both hold the same
/// bytes.
#[verifier::external_body]
fn share(map: &Rc<Vec<u8>>) -> (r: Rc<Vec<u8>>)
    ensures
        r@ == map@,
{
    Rc::clone(map)
}

impl DiskHash {
    /// The image's bytes.
    pub closed spec fn contents(&self) -> Seq<u8> {
        self.map@
    }

    /// The table size, as read from the end of the image.
    pub closed spec fn spec_table_size(&self) -> u64 {
        self.table_size
    }

    #[verifier::type_invariant]
    closed spec fn inv(self) -> bool {
        8 <= self.map@.len() <= isize::MAX
    }

    /// The table size, as read from the end of the image.
    pub fn table_size(&self) -> (ts: u64)
        ensures
            ts == self.spec_table_size(),
    {
        self.table_size
    }

    /// Opens the image `data`; its last 8 bytes hold the table size.
    pub fn new(data: Vec<u8>) -> (dh: DiskHash)
        requires
            8 <= data@.len() <= isize::MAX,
        ensures
            dh.contents() == data@,
            dh.spec_table_size() == read_u64(data@, data@.len() - 8),
    {
        let ts_offs = data.len() - 8;
        let table_size = unpack_u64(&data, ts_offs);
        DiskHash { map: Rc::new(data), table_size }
    }
}

impl DiskHash {
    /// Looking `name` up has the outcome of a walk with one step per byte
    /// of the image, wherever it is defined.
    proof fn lemma_lookup_fuel(&self, name: Seq<char>)
        requires
            self.spec_table_size() > 0,
            slot_of(self.spec_table_size(), name) + 8 <= self.contents().len(),
        ensures
            lookup_defined(self.contents(), self.spec_table_size(), name) <==> lookup_walk(
                self.contents(),
                self.spec_table_size(),
                name,
                (self.contents().len() + 1) as nat,
            ) is Some,
            lookup_defined(self.contents(), self.spec_table_size(), name) ==> lookup_result(
                self.contents(),
                self.spec_table_size(),
                name,
            ) == lookup_walk(self.contents(), self.spec_table_size(), name, (self.contents().len() + 1) as nat).unwrap(),
    {
        let data = self.contents();
        let ts = self.spec_table_size();
        let full = (data.len() + 1) as nat;
        let start = read_u64(data, slot_of(ts, name)) as int;
        if lookup_defined(data, ts, name) {
            let f = choose|f: nat| #[trigger] lookup_walk(data, ts, name, f) is Some;
            lemma_walk_enough_fuel(data, start, name_bytes(name), f);
        }
        if lookup_walk(data, ts, name, full) is Some {
            // `full` is the fuel that shows the lookup defined
            assert(lookup_walk(data, ts, name, full) is Some);
        }
    }

    /// Finds `name` in the image: the place of the contents of the first
    /// file added under that name, or the empty place at offset 0 if no file
    /// was. The lookup must be defined: the table size is not zero, the
    /// bucket's slot lies inside the image, and its chain ends.
    pub fn lookup(&self, name: &str) -> (a: Access)
        requires
            lookup_defined(self.contents(), self.spec_table_size(), name@),
        ensures
            a.image() == self.contents(),
            a.spec_offs() == place_of(lookup_result(self.contents(), self.spec_table_size(), name@)).0,
            a.spec_len() == place_of(lookup_result(self.contents(), self.spec_table_size(), name@)).1,
    {
        proof {
            self.lemma_lookup_fuel(name@);
        }
        let r = self.find(name);
        r.unwrap()
    }

    /// Finds `name` like `lookup`, and tells where the lookup is not
    /// defined by giving no place.
    pub fn try_lookup(&self, name: &str) -> (r: Option<Access>)
        ensures
            r is Some <==> lookup_defined(self.contents(), self.spec_table_size(), name@),
            r matches Some(a) ==> {
                &&& a.image() == self.contents()
                &&& a.spec_offs() == place_of(lookup_result(self.contents(), self.spec_table_size(), name@)).0
                &&& a.spec_len() == place_of(lookup_result(self.contents(), self.spec_table_size(), name@)).1
            },
    {
        let r = self.find(name);
        proof {
            if self.spec_table_size() > 0 && slot_of(self.spec_table_size(), name@) + 8 <= self.contents().len() {
                self.lemma_lookup_fuel(name@);
            }
        }
        r
    }

    /// Follows the chain of the bucket of `name` for at most one entry per
    /// byte of the image.
    fn find(&self, name: &str) -> (r: Option<Access>)
        ensures
            r is Some <==> {
                &&& self.spec_table_size() > 0
                &&& slot_of(self.spec_table_size(), name@) + 8 <= self.contents().len()
                &&& lookup_walk(self.contents(), self.spec_table_size(), name@, (self.contents().len() + 1) as nat) is Some
            },
            r matches Some(a) ==> {
                let found = lookup_walk(self.contents(), self.spec_table_size(), name@, (self.contents().len() + 1) as nat).unwrap();
                &&& a.image() == self.contents()
                &&& a.spec_offs() == place_of(found).0
                &&& a.spec_len() == place_of(found).1
            },
    {
        proof {
            use_type_invariant(self);
        }
        if self.table_size == 0 {
            return None;
        }
        let data: &Vec<u8> = &self.map;
        let len = data.len();
        let bucket = hash(name) % self.table_size;
        if bucket > ((len - 8) / 8) as u64 {
            return None;
        }
        let q: &[u8] = name.as_bytes();
        let ghost qs = name_bytes(name@);
        let ghost fuel0: nat = (len + 1) as nat;
        let ghost start = read_u64(data@, slot_of(self.table_size, name@)) as int;
        assert(q@ == qs);
        assert(bucket as int == bucket_of(self.table_size, name@));
        let mut offs: u64 = unpack_u64(data, (bucket * 8) as usize);
        let mut steps: usize = 0;
        loop
            invariant
                data@ == self.contents(),
                len == data@.len(),
                8 <= len <= isize::MAX,
                q@ == qs,
                qs == name_bytes(name@),
                steps <= len + 1,
                fuel0 == len + 1,
                self.table_size > 0,
                slot_of(self.table_size, name@) + 8 <= len,
                start == read_u64(data@, slot_of(self.table_size, name@)) as int,
                walk(data@, start, qs, fuel0) == walk(data@, offs as int, qs, (fuel0 - steps) as nat),
            decreases len + 1 - steps,
        {
            if offs == 0 {
                assert(lookup_walk(self.contents(), self.table_size, name@, fuel0) is Some);
                return Some(Access { map: share(&self.map), offs: 0, len: 0 });
            }
            if steps == len + 1 {
                assert(walk(data@, offs as int, qs, 0) is None);
                assert(lookup_walk(self.contents(), self.table_size, name@, fuel0) is None);
                return None;
            }
            if offs > (len - 8) as u64 {
                assert(walk(data@, offs as int, qs, (fuel0 - steps) as nat) is None);
                assert(lookup_walk(self.contents(), self.table_size, name@, fuel0) is None);
                return None;
            }
            let name_start = offs as usize + 8;
            let zero = find_zero(data, name_start);
            let k = match zero {
                Some(k) => k,
                None => {
                    return None;
                },
            };
            proof {
                lemma_stored_name(data@, name_start as int, k as int, qs);
            }
            if k - name_start == q.len() && same_bytes(slice_subrange(data.as_slice(), name_start, k), q) {
                let size_at = k + 1;
                if size_at + 8 > len {
                    return None;
                }
                let size = unpack_u64(data, size_at);
                let content = align((size_at + 8) as u64);
                assert(content <= len + 40);
                return Some(Access { map: share(&self.map), offs: content as usize, len: size as usize });
            }
            offs = unpack_u64(data, offs as usize);
            steps = steps + 1;
        }
    }
}

/// Where `k` is the first zero from `start` on, the name stored at `start`
/// is `q` just when the bytes up to `k` are `q`.
pub proof fn lemma_stored_name(data: Seq<u8>, start: int, k: int, q: Seq<u8>)
    requires
        0 <= start <= k < data.len(),
        data[k] == 0,
        forall|m: int| start <= m < k ==> data[m] != 0,
    ensures
        stored_name_is(data, start, q) <==> (k - start == q.len() && data.subrange(start, k) == q),
{
    if stored_name_is(data, start, q) {
        if start + q.len() < k {
            assert(data[start + q.len()] == 0);
        }
        if k < start + q.len() {
            assert(data.subrange(start, start + q.len())[k - start] == data[k]);
            assert(q[k - start] != 0);
        }
    }
    if k - start == q.len() && data.subrange(start, k) == q {
        assert forall|m: int| 0 <= m < q.len() implies q[m] != 0 by {
            assert(data.subrange(start, k)[m] == data[start + m]);
        }
    }
}

/// The first zero byte of `data` at or after `start`.
fn find_zero(data: &Vec<u8>, start: usize) -> (r: Option<usize>)
    requires
        start <= data@.len(),
    ensures
        r matches Some(k) ==> start <= k < data@.len() && data@[k as int] == 0 && forall|m: int|
            start <= m < k ==> data@[m] != 0,
        r is None ==> !has_zero_from(data@, start as int),
{
    let mut k = start;
    while k < data.len()
        invariant
            start <= k <= data@.len(),
            forall|m: int| start <= m < k ==> data@[m] != 0,
        decreases data@.len() - k,
    {
        if data[k] == 0 {
            return Some(k);
        }
        k = k + 1;
    }
    None
}

/// Whether two byte strings are equal.
fn same_bytes(a: &[u8], b: &[u8]) -> (r: bool)
    ensures
        r == (a@ == b@),
{
    if a.len() != b.len() {
        return false;
    }
    let mut i: usize = 0;
    while i < a.len()
        invariant
            a@.len() == b@.len(),
            i <= a@.len(),
            forall|m: int| 0 <= m < i ==> a@[m] == b@[m],
        decreases a@.len() - i,
    {
        if a[i] != b[i] {
            return false;
        }
        i = i + 1;
    }
    assert(a@ =~= b@);
    true
}

impl Access {
    /// The image that the place lies in.
    pub closed spec fn image(&self) -> Seq<u8> {
        self.map@
    }

    /// Where the contents start.
    pub closed spec fn spec_offs(&self) -> usize {
        self.offs
    }

    /// How many bytes the contents take.
    pub closed spec fn spec_len(&self) -> usize {
        self.len
    }

    /// Whether the place lies inside its image.
    pub fn fits(&self) -> (ok: bool)
        ensures
            ok == (self.spec_offs() + self.spec_len() <= self.image().len()),
    {
        let data: &Vec<u8> = &self.map;
        self.offs <= data.len() && self.len <= data.len() - self.offs
    }

    /// The contents themselves.
    pub fn as_slice(&self) -> (s: &[u8])
        requires
            self.spec_offs() + self.spec_len() <= self.image().len(),
        ensures
            s@ == self.image().subrange(self.spec_offs() as int, self.spec_offs() + self.spec_len()),
    {
        let data: &Vec<u8> = &self.map;
        let size = data.len();
        assert(self.offs + self.len <= size);
        slice_subrange(data.as_slice(), self.offs, self.offs + self.len)
    }
}

/// The number in the 8 bytes of `data` from `offset` on, in the machine's
/// byte order.
pub fn unpack_u64(data: &Vec<u8>, offset: usize) -> (v: u64)
    requires
        offset + 8 <= data.len(),
    ensures
        v == read_u64(data@, offset as int),
{
    from_native_bytes(slice_subrange(data.as_slice(), offset, offset + 8))
}

} // verus!
