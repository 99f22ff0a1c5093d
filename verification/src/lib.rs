//! Reconstruction of the historical lineage of hierarchical
//! administrative-division codes from periodic full snapshots, reconciled
//! against a hand-authored change log.
//!
//! The crate builds a per-code version timeline from snapshots, parses the
//! change-log line grammar, resolves each change's textual selectors to
//! concrete target codes, and validates bidirectional and set-level
//! consistency between adjacent snapshots and the authored log.

use vstd::prelude::*;

pub mod bytes;
pub mod codemap;
pub mod codes;
pub mod parser;
pub mod process;
pub mod resolve;
pub mod table;
pub mod timeline;

verus! {

/// One resolved change, stated in the forward direction: at `time`, the
/// origin `code` transitions to each code in `attr`.
#[derive(Debug)]
pub struct FwdDiff {
    /// The effective time (the later snapshot's tick).
    pub time: u32,
    /// The origin code, from the earlier snapshot.
    pub code: u32,
    /// Whether this records a same-code transfer.
    pub transfer: bool,
    /// The resolved target codes.
    pub attr: Vec<u32>,
    /// The description block the change references, if any.
    pub desc_id: Option<u32>,
}

/// Classification of the fatal and non-fatal defects the engine detects.
#[derive(Clone, Copy, Debug, PartialEq, Eq, Structural)]
pub enum ErrorKind {
    /// An unparseable snapshot or change-log line.
    MalformedInput,
    /// A selector resolved to zero or to multiple equally ranked candidates.
    ResolutionFailure,
    /// A declared name contradicts the authoritative snapshot, or the
    /// selector-emptiness policy was violated.
    ConsistencyViolation,
    /// The consumed codes do not match the difference of the two snapshots.
    OmissionDefect,
}

/// A fatal defect found while replaying one change-log file.
#[derive(Clone, Copy, Debug, PartialEq, Eq, Structural)]
pub enum ProcessError {
    /// The line fits no form of the change-log grammar.
    MalformedLine,
    /// A selector resolved to no candidate.
    NotFound,
    /// A selector resolved to several equally ranked candidates.
    MultipleRecords,
    /// The declared name differs from the snapshot the line points at.
    NameMismatch,
    /// The same code was consumed twice as a deletion.
    DuplicateDeletion,
    /// The same code was consumed twice as an addition.
    DuplicateAddition,
    /// A non-transfer change on a code with children carries selectors.
    NonemptyAttrWithChildren,
    /// A change on a childless code carries no selector.
    EmptyAttrWithoutChildren,
    /// The remaining unconsumed codes of the two snapshots disagree.
    Omission,
}

impl ProcessError {
    /// The defect category a given error belongs to.
    pub open spec fn spec_kind(self) -> ErrorKind {
        match self {
            ProcessError::MalformedLine => ErrorKind::MalformedInput,
            ProcessError::NotFound => ErrorKind::ResolutionFailure,
            ProcessError::MultipleRecords => ErrorKind::ResolutionFailure,
            ProcessError::NameMismatch => ErrorKind::ConsistencyViolation,
            ProcessError::DuplicateDeletion => ErrorKind::OmissionDefect,
            ProcessError::DuplicateAddition => ErrorKind::OmissionDefect,
            ProcessError::NonemptyAttrWithChildren => ErrorKind::ConsistencyViolation,
            ProcessError::EmptyAttrWithoutChildren => ErrorKind::ConsistencyViolation,
            ProcessError::Omission => ErrorKind::OmissionDefect,
        }
    }

    /// The defect category a given error belongs to.
    pub fn kind(&self) -> (r: ErrorKind)
        ensures
            r == self.spec_kind(),
    {
        match self {
            ProcessError::MalformedLine => ErrorKind::MalformedInput,
            ProcessError::NotFound => ErrorKind::ResolutionFailure,
            ProcessError::MultipleRecords => ErrorKind::ResolutionFailure,
            ProcessError::NameMismatch => ErrorKind::ConsistencyViolation,
            ProcessError::DuplicateDeletion => ErrorKind::OmissionDefect,
            ProcessError::DuplicateAddition => ErrorKind::OmissionDefect,
            ProcessError::NonemptyAttrWithChildren => ErrorKind::ConsistencyViolation,
            ProcessError::EmptyAttrWithoutChildren => ErrorKind::ConsistencyViolation,
            ProcessError::Omission => ErrorKind::OmissionDefect,
        }
    }
}

} // verus!
