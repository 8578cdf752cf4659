//! A chunked object store: payloads too large for a single database document
//! are split into bounded-size chunks, persisted as one header record plus an
//! ordered chunk set, and reassembled on retrieval. Deletion requires the
//! per-object key minted at upload time.

pub mod codec;
pub mod ids;
pub mod naming;
pub mod objects;
pub mod service;
pub mod store;
