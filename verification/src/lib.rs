//! Integrity fingerprints for file trees.
//!
//! The library computes a 128-bit fast-hash digest for each file of a
//! directory tree, records the `(relative path, digest)` pairs in a
//! line-oriented text manifest, and later re-checks a tree against such a
//! manifest, classifying every file as unchanged, modified or missing.
//!
//! The verified core holds the manifest codec, the streaming hash engine,
//! the outcome classification of the check flow, and models of the two
//! coordination devices of a run: the admission-token pool that bounds how
//! many hashing units run at once, and the bounded result queue that
//! carries digests from the hashing units to the single aggregator.
//!
//! Paths and manifest text are byte strings throughout; the surrounding
//! program converts whatever its platform hands it and performs all file
//! and console work, handing plain values in and out.

pub mod args;
pub mod bytes;
pub mod channel;
pub mod codec;
pub mod digest_map;
pub mod hash;
pub mod hex;
pub mod manifest;
pub mod outcome;
pub mod scheduler;

pub use args::{ArgError, Args, Mode};
pub use channel::{Aggregator, ResultQueue, RESULT_CAPACITY};
pub use digest_map::DigestMap;
pub use hash::{compute_hash, HashEngine, CHUNK_SIZE};
pub use hex::{hex_to_u128, u128_to_hex};
pub use manifest::{
    export_all_hash, read_hash_file, strip_root, DigestMissingError, ManifestParseError,
};
pub use outcome::{classify_outcome, outcome_is_fatal, HashFailure, Outcome};
pub use scheduler::{TokenPool, DEFAULT_TOKENS};
