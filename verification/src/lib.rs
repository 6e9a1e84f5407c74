//! Observes process-exec activity: correlates the entry and exit of each
//! exec call through a bounded keyed table, builds a fixed-layout record,
//! and moves completed records through per-processor channels with loss
//! accounting.
//!
//! The probe and collector logic here works on plain values; the kernel
//! attachment, the raw trace-point reads and the terminal output live in
//! the surrounding binary.

pub mod args;
pub mod channel;
pub mod collector;
pub mod codec;
pub mod probes;
pub mod record;
pub mod table;
