//! Core logic of a recovery-side flashing engine: decoding the Android
//! sparse-image format onto a block device, planning dynamic ("super")
//! partition-table updates, and a bounded FIFO model of the decoupled
//! write pipeline.

pub mod archive;
pub mod device;
pub mod errors;
pub mod oplist;
pub mod payload;
pub mod pipeline;
pub mod plan;
pub mod roundtrip;
pub mod sparse;
pub mod superinfo;
pub mod text;
pub mod words;
