# meh

A hash table of files stored in one image, verified with Verus.

`HashBuilder` collects file names and sizes; `HashBuilder::image` lays out
the image from the files' contents: one 8-byte slot per bucket, then one
entry per file (an 8-byte link to the next entry of the same bucket, the name
and a zero byte, the 8-byte size, and the contents aligned to 32 bytes), and
finally the table size. Every number takes 8 bytes, little endian or in the
machine's byte order (`ByteOrder`); `DiskHash` reads them in the machine's
order when it opens an image, and `lookup` walks the chain of a name's
bucket.

- `src/layout.rs`, `src/hashing.rs`: alignment and the name hash.
- `src/order.rs`: the two byte orders of the numbers.
- `src/builder.rs`: the builder and its invariant.
- `src/image.rs`: the image as a function of the builder's entries.
- `src/reader.rs`, `src/chain.rs`: lookups, and why a bounded walk decides them.
- `src/roundtrip.rs`: what a built image holds at each place, and that a
  lookup in it finds the first file added under the name.
- `src/factorial.rs`: factorials by recursion and by a loop.
- `app/`: reading and writing files, and the command-line program.
