//! Compiler toolchain management for a Solidity language server: a release
//! catalog with latest-per-minor and exact-version views, checksum-verified
//! downloads, a two-tier on-disk binary cache with age-based retention, and a
//! pragma-driven version resolver that never blocks a caller on a cache miss.
//!
//! All textual data (file contents, version strings, file names, URLs) is
//! handled as byte strings (`Vec<u8>` / `&[u8]`), so contracts are stated over
//! `Seq<u8>` throughout. Filesystem probes and network transfers are events
//! supplied by the embedding process; the decisions taken on them live here.
#![verifier::loop_isolation(false)]
use vstd::prelude::*;

pub mod bytes;
pub mod version;
pub mod platform;
pub mod catalog;
pub mod fetch;
pub mod manager;
pub mod position;
pub mod project;
pub mod switcher;
pub mod text;
