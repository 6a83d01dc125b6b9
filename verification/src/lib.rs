//! Delta codecs for posting-list records and the aggregate result graph
//! used while a query is evaluated.
//!
//! The wire formats are stated as spec functions over `Seq<u8>`; every
//! encoder is proved to emit exactly those bytes and every decoder to
//! compute exactly the matching parse.

pub mod bencher;
pub mod boundary;
pub mod classify;
pub mod codecs;
pub mod error;
pub mod filter;
pub mod fixed;
pub mod numeric;
pub mod offsets;
pub mod qint;
pub mod result;
pub mod roundtrip;
pub mod varint;
