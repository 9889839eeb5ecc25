//! A hash table of files laid out in a single image: a builder that assigns
//! every added file its place, the byte image that the builder describes,
//! and a reader that finds a file's contents in such an image by name.

pub mod layout;
pub mod order;
pub mod hashing;
pub mod builder;
pub mod image;
pub mod reader;
pub mod chain;
pub mod roundtrip;
pub mod factorial;

pub use builder::HashBuilder;
pub use hashing::hash;
pub use layout::align;
pub use reader::{Access, DiskHash};
pub use order::ByteOrder;
