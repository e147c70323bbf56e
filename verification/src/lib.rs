//! Persistence for a collection of seismic-observation station records.
//!
//! The collection is stored as one JSON document, either in a local file or
//! under a fixed key of an object-store bucket; the object-store backend also
//! keeps a CSV export under a second key and issues time-limited download
//! links for it.  This crate holds the verified core: the document encoding
//! and its decoder, the decisions a load/save makes, the fixed key layout and
//! the expiry policy.  The I/O itself (filesystem, network transport) is
//! performed by the embedding program, which hands plain values in and out.

pub mod codec;
pub mod storage;
pub mod station;
