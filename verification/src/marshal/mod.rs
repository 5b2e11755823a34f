//! Ruby Marshal 4.8: the value tree, its reader and its writer.
pub mod model;
pub mod bignum;
pub mod float;
pub mod rgss3a;
pub mod stream;
pub mod roundtrip;
pub mod show;
pub mod tree;
pub mod long;
pub mod load;
pub mod dump;
