//! Per-station minimum, maximum and mean of `<station>;<temperature>` records
//! in one large buffer, computed chunk by chunk.
//!
//! The buffer is cut at line terminators into chunks (`chunk`); each chunk's
//! lines are read as records (`record`) into a mapping from station name to
//! running statistics (`aggregate`, `data`, `measurements`); the mappings are
//! merged and listed in byte-wise order of station name (`order`, `run`).
//! `laws` proves that neither the merge order nor the chunk size changes the
//! result.
pub mod aggregate;
pub mod chunk;
pub mod data;
pub mod laws;
pub mod measurements;
pub mod order;
pub mod record;
pub mod run;
pub mod table;
