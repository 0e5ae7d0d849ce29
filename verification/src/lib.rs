//! Crash-safe graveyard engine: the verified core of a safe-delete tool
//! that moves filesystem entries aside instead of destroying them.
//!
//! The engine keeps a durable catalog mapping each buried object's
//! original location to its current trashed location, guards which paths
//! may be buried at all, and decides every step of burying, restoring and
//! pruning. Paths are modeled as `/`-separated byte strings; the catalog
//! file format is implemented and proved here as a byte-level codec whose
//! reader recovers exactly what the writer produced
//! ([`codec::lemma_catalog_round_trip`]).
//!
//! Filesystem work — renames, copies, syncs, locking — is performed by the
//! surrounding application, which asks this crate what to do and reports
//! how it went: the durable move is a verified state machine
//! ([`moveplan`]), the catalog transaction serializes and parses through
//! [`codec`], and restore ordering comes from the hierarchy closure and
//! depth sort in [`select`]. The catalog-level laws live in [`laws`].
pub mod bytesutil;
pub mod codec;
pub mod index;
pub mod journal;
pub mod laws;
pub mod listing;
pub mod moveplan;
pub mod naming;
pub mod numfmt;
pub mod pathutil;
pub mod safety;
pub mod select;
pub mod wellknown;
