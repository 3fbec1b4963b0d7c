//! Editor for a fixed-layout binary archive container: decodes the table of
//! contents, merges replacement/additional payloads, and re-encodes a complete
//! archive with patched offsets.

pub mod align;
pub mod binnedwrite;
pub mod patcher;
pub mod codec;
pub mod hash;
pub mod laws;
pub mod pck;
pub mod store;
