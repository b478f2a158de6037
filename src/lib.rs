//! Content hashing of files and directory trees: the checkfile codec, the
//! manifest reconciliation engine, the input-strategy selector and the hash
//! pipeline around BLAKE3.

pub mod hexdigits;
pub mod codec;
pub mod manifest;
pub mod pipeline;
pub mod input;
pub mod check;
