//! Classification of per-file results during a check run.
//!
//! When a tree is checked against a manifest, each recorded file is hashed
//! again and the fresh digest is compared with the recorded one. The result
//! of the re-hash is either a digest or a failure, and the pair is classified
//! into one of four outcomes. A check run is fail-fast: every outcome other
//! than [`Outcome::Success`] stops the whole run.

use vstd::prelude::*;

verus! {

/// Why re-hashing a recorded file failed.
#[derive(Clone, Copy, PartialEq, Eq, Structural, Debug)]
pub enum HashFailure {
    /// The file no longer exists: it vanished between discovery and hashing.
    NotFound,
    /// Any other input error while opening or reading the file.
    Io,
}

/// The verdict for one recorded file during a check run.
#[derive(Clone, Copy, PartialEq, Eq, Structural, Debug)]
pub enum Outcome {
    /// The recomputed digest equals the recorded one.
    Success,
    /// The recomputed digest differs from the recorded one.
    Mismatch,
    /// The file could not be found when it was re-hashed.
    Missing,
    /// Re-hashing failed with an input error other than not-found.
    IoFailure,
}

/// Classifies the result of re-hashing one file against its recorded digest.
///
/// Failures take priority over comparison: a vanished file is `Missing` and
/// any other read failure is `IoFailure`, whatever digest was recorded.
/// Only when the re-hash produced a digest is it compared with the record.
pub fn classify_outcome(recorded: u128, recomputed: &Result<u128, HashFailure>) -> (o: Outcome)
    ensures
        o == spec_classify(recorded, *recomputed),
{
    match recomputed {
        Ok(fresh) => {
            if *fresh == recorded {
                Outcome::Success
            } else {
                Outcome::Mismatch
            }
        },
        Err(HashFailure::NotFound) => Outcome::Missing,
        Err(HashFailure::Io) => Outcome::IoFailure,
    }
}

/// What [`classify_outcome`] returns for every recorded digest and re-hash
/// result.
pub open spec fn spec_classify(recorded: u128, recomputed: Result<u128, HashFailure>) -> Outcome {
    match recomputed {
        Ok(fresh) => if fresh == recorded {
            Outcome::Success
        } else {
            Outcome::Mismatch
        },
        Err(HashFailure::NotFound) => Outcome::Missing,
        Err(HashFailure::Io) => Outcome::IoFailure,
    }
}

/// Whether an outcome stops the whole check run.
///
/// The design is fail-fast: the first outcome other than `Success` observed
/// by any hashing unit terminates the run.
pub fn outcome_is_fatal(o: Outcome) -> (fatal: bool)
    ensures
        fatal == (o != Outcome::Success),
{
    match o {
        Outcome::Success => false,
        Outcome::Mismatch => true,
        Outcome::Missing => true,
        Outcome::IoFailure => true,
    }
}

} // verus!
