use meh::builder::HashBuilder;
use meh::factorial::{iterative_factorial, recursive_factorial};
use meh::hashing::hash;
use meh::layout::align;
use meh::order::ByteOrder;
use meh::reader::DiskHash;

fn ne(v: u64) -> Vec<u8> {
    v.to_ne_bytes().to_vec()
}

fn build(table_size: u64, files: &[(&str, &[u8])]) -> Vec<u8> {
    build_in(table_size, files, ByteOrder::Native)
}

fn build_in(table_size: u64, files: &[(&str, &[u8])], order: ByteOrder) -> Vec<u8> {
    let mut builder = HashBuilder::new(table_size);
    let mut contents: Vec<Vec<u8>> = Vec::new();
    for (name, data) in files {
        assert!(builder.can_add(name, data.len() as u64));
        builder.add(name, data.len() as u64);
        contents.push(data.to_vec());
    }
    builder.image(&contents, order)
}

fn found(dh: &DiskHash, name: &str) -> Vec<u8> {
    let access = dh.lookup(name);
    assert!(access.fits());
    access.as_slice().to_vec()
}

#[test]
fn align_rounds_up_to_32() {
    assert_eq!(align(0), 0);
    assert_eq!(align(1), 32);
    assert_eq!(align(31), 32);
    assert_eq!(align(32), 32);
    assert_eq!(align(33), 64);
    assert_eq!(align(1000), 1024);
}

#[test]
fn hash_multiplies_by_33_and_mixes_in_each_char() {
    assert_eq!(hash(""), 5381);
    assert_eq!(hash("a"), 177604);
    assert_eq!(hash("abc"), 193409669);
    assert_eq!(hash("files.txt"), 249784171949748038);
    assert_eq!(hash("hash.bin"), 7569468694406364);
    // characters, not bytes: 'é' is one step with code point 233
    assert_eq!(hash("é"), 177484);
}

#[test]
fn empty_table_image() {
    let builder = HashBuilder::new(2);
    let img = builder.image(&Vec::new(), ByteOrder::Native);
    let mut expected = vec![0u8; 16];
    expected.extend(ne(2));
    assert_eq!(img, expected);
}

#[test]
fn one_entry_image_layout() {
    let img = build(1, &[("a", b"xyz")]);
    let mut expected = Vec::new();
    expected.extend(ne(8)); // slot of bucket 0 links to the entry at 8
    expected.extend(ne(0)); // the entry's link: end of chain
    expected.extend(b"a\0"); // name and its end, at 16
    expected.extend(ne(3)); // size, at 18
    expected.extend(vec![0u8; 6]); // padding up to 32
    expected.extend(b"xyz"); // contents, at 32
    expected.extend(ne(1)); // table size, at 35
    assert_eq!(img, expected);
}

#[test]
fn chain_links_entries_of_one_bucket_in_order() {
    let img = build(1, &[("a", b""), ("b", b"")]);
    // first entry at 8: header 8, name 2, size 8 -> 26, aligned 32
    assert_eq!(&img[0..8], &ne(8)[..]);
    assert_eq!(&img[8..16], &ne(32)[..]);
    assert_eq!(&img[32..40], &ne(0)[..]);
    assert_eq!(&img[40..42], b"b\0");
    assert_eq!(img.len(), 32 + 32 + 8);
}

#[test]
fn lookup_finds_every_added_fine() {
    let files: Vec<(&str, &[u8])> = vec![
        ("a", b"first"),
        ("b", b""),
        ("c", b"third file"),
        ("dir/é.txt", b"\x00\x01\x02"),
        ("files.txt", b"lines\n"),
    ];
    for table_size in [1u64, 2, 3, 7, 1024] {
        let img = build(table_size, &files);
        let dh = DiskHash::new(img);
        assert_eq!(dh.table_size(), table_size);
        for (name, data) in &files {
            assert_eq!(found(&dh, name), data.to_vec());
        }
    }
}

#[test]
fn lookup_of_absent_name_is_empty_at_offset_zero() {
    let img = build(3, &[("a", b"xyz"), ("b", b"uvw")]);
    let dh = DiskHash::new(img);
    let access = dh.lookup("missing");
    assert!(access.fits());
    assert_eq!(access.as_slice().len(), 0);
    assert_eq!(found(&dh, "a\0"), Vec::<u8>::new());
    assert_eq!(found(&dh, ""), Vec::<u8>::new());
}

#[test]
fn lookup_prefers_the_first_of_duplicate_names() {
    let img = build(2, &[("same", b"one"), ("other", b"x"), ("same", b"two")]);
    let dh = DiskHash::new(img);
    assert_eq!(found(&dh, "same"), b"one".to_vec());
    assert_eq!(found(&dh, "other"), b"x".to_vec());
}

#[test]
fn try_lookup_agrees_with_lookup_on_built_images() {
    let img = build(2, &[("a", b"1"), ("b", b"22")]);
    let dh = DiskHash::new(img);
    let access = dh.try_lookup("b").expect("defined");
    assert_eq!(access.as_slice(), b"22");
    assert_eq!(dh.try_lookup("zz").expect("defined").as_slice().len(), 0);
}

#[test]
fn try_lookup_refuses_a_zero_table_size() {
    let dh = DiskHash::new(vec![0u8; 8]);
    assert_eq!(dh.table_size(), 0);
    assert!(dh.try_lookup("a").is_none());
}

#[test]
fn try_lookup_refuses_a_slot_outside_the_image() {
    let mut img = vec![0u8; 8];
    img.extend(ne(1000));
    let dh = DiskHash::new(img);
    // hash("a") % 1000 = 604, whose slot lies far beyond 16 bytes
    assert!(dh.try_lookup("a").is_none());
}

#[test]
fn try_lookup_refuses_a_cyclic_chain() {
    // one bucket; the slot links to the entry at 8, whose link points back to itself
    let mut img = Vec::new();
    img.extend(ne(8));
    img.extend(ne(8));
    img.extend(b"x\0");
    img.extend(ne(0));
    img.extend(ne(1));
    let dh = DiskHash::new(img);
    assert!(dh.try_lookup("y").is_none());
    // the name at the head of the cycle is still found
    let access = dh.try_lookup("x").expect("found before the cycle matters");
    assert!(access.fits());
    assert_eq!(access.as_slice().len(), 0);
}

#[test]
fn try_lookup_refuses_a_link_outside_the_image() {
    let mut img = Vec::new();
    img.extend(ne(500));
    img.extend(ne(1));
    let dh = DiskHash::new(img);
    assert!(dh.try_lookup("a").is_none());
}

#[test]
fn try_lookup_refuses_a_name_without_end() {
    // a table size with no zero byte, so nothing after the entry ends its name
    let table_size: u64 = 0x0101_0101_0101_0101;
    let slot = (hash("a") % table_size) as usize * 8;
    let entry = slot + 8;
    let mut img = vec![1u8; entry + 8 + 32];
    img[slot..slot + 8].copy_from_slice(&ne(entry as u64));
    img.extend(ne(table_size));
    let dh = DiskHash::new(img);
    assert_eq!(dh.table_size(), table_size);
    assert!(dh.try_lookup("a").is_none());
}

#[test]
fn can_add_needs_buckets_and_room() {
    let empty = HashBuilder::new(0);
    assert!(!empty.can_add("a", 1));
    let builder = HashBuilder::new(1);
    assert!(builder.can_add("a", 1));
    assert!(!builder.can_add("a", u64::MAX - 10));
}

#[test]
fn factorials_agree() {
    assert_eq!(recursive_factorial(10), 3628800);
    assert_eq!(iterative_factorial(10), 3628800);
    assert_eq!(recursive_factorial(0), 1);
    assert_eq!(iterative_factorial(1), 1);
    assert_eq!(recursive_factorial(-5), 1);
    assert_eq!(iterative_factorial(-5), 1);
    assert_eq!(recursive_factorial(20), 2432902008176640000);
    assert_eq!(iterative_factorial(20), 2432902008176640000);
    for n in 0..=20 {
        assert_eq!(recursive_factorial(n), iterative_factorial(n));
    }
}

#[test]
fn a_name_holding_a_zero_byte_is_stored_but_not_found() {
    let img = build(1, &[("a\0b", b"x"), ("c", b"yz")]);
    let dh = DiskHash::new(img);
    assert_eq!(found(&dh, "a\0b"), Vec::<u8>::new());
    assert_eq!(found(&dh, "c"), b"yz".to_vec());
}

#[test]
fn little_order_image_stores_little_endian_numbers() {
    let img = build_in(1, &[("a", b"xyz")], ByteOrder::Little);
    assert_eq!(&img[0..8], &8u64.to_le_bytes()[..]);
    assert_eq!(&img[18..26], &3u64.to_le_bytes()[..]);
    assert_eq!(&img[35..43], &1u64.to_le_bytes()[..]);
    assert_eq!(&img[32..35], b"xyz");
    if 1u64.to_ne_bytes() == 1u64.to_le_bytes() {
        assert_eq!(img, build_in(1, &[("a", b"xyz")], ByteOrder::Native));
    }
}

#[test]
fn native_order_image_stores_native_numbers() {
    let img = build_in(1, &[("a", b"xyz")], ByteOrder::Native);
    assert_eq!(&img[0..8], &8u64.to_ne_bytes()[..]);
    assert_eq!(&img[18..26], &3u64.to_ne_bytes()[..]);
    assert_eq!(&img[35..43], &1u64.to_ne_bytes()[..]);
    let dh = DiskHash::new(img);
    assert_eq!(dh.table_size(), 1);
}
