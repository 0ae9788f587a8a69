//! The validator: the business rule applied to a decoded record set, and the
//! per-cell driver verdict that combines decoding with validation.

use vstd::prelude::*;

use crate::errors::CodecError;
use crate::view::{view_from_binary_spec, KuaiMvpView};

verus! {

/// Why a structurally valid record set is rejected.
#[derive(Debug, Clone, Copy, PartialEq, Eq, Structural)]
pub enum RejectReason {
    /// The record set holds no records at all.
    EmptyRecordSet,
    /// The first record's key is not the reserved primary key.
    PrimaryKeyMismatch,
}

/// The validator's verdict on a decoded record set.
#[derive(Debug, Clone, Copy, PartialEq, Eq, Structural)]
pub enum ValidationOutcome {
    Valid,
    Rejected(RejectReason),
}

/// The reserved key that the first record of a valid record set must carry.
pub open spec fn primary_key() -> Seq<char> {
    "ckb"@
}

/// The rule a record set must satisfy: it holds at least one record, and the
/// first record's key is the reserved primary key.
pub open spec fn validate_spec(vm: Seq<(Seq<char>, Seq<char>)>) -> ValidationOutcome {
    if vm.len() == 0 {
        ValidationOutcome::Rejected(RejectReason::EmptyRecordSet)
    } else if vm[0].0 != primary_key() {
        ValidationOutcome::Rejected(RejectReason::PrimaryKeyMismatch)
    } else {
        ValidationOutcome::Valid
    }
}

impl KuaiMvpView {
    /// Applies the business rule to this view: rejects an empty record set,
    /// rejects a first key other than the reserved primary key, and accepts
    /// everything else.
    pub fn verify(&self) -> (r: ValidationOutcome)
        ensures
            r == validate_spec(self@),
    {
        if self.addresses.len() == 0 {
            return ValidationOutcome::Rejected(RejectReason::EmptyRecordSet);
        }
        let expected: String = "ckb".to_owned();
        let first = &self.addresses[0];
        proof {
            assert(self@[0] == first@);
        }
        if first.key == expected {
            ValidationOutcome::Valid
        } else {
            ValidationOutcome::Rejected(RejectReason::PrimaryKeyMismatch)
        }
    }
}

/// The driver-facing verdict on one cell's data buffer.
#[derive(Debug, Clone, Copy, PartialEq, Eq, Structural)]
pub enum CellOutcome {
    /// The buffer decodes and its record set satisfies the business rule.
    Valid,
    /// The buffer decodes but its record set breaks the business rule.
    Rejected(RejectReason),
    /// The buffer does not decode to a record set at all.
    MalformedInput(CodecError),
}

/// The verdict for every possible cell buffer: the decode error of a buffer
/// that does not decode, and the validator's verdict on one that does.
pub open spec fn check_cell_spec(data: Seq<u8>) -> CellOutcome {
    match view_from_binary_spec(data) {
        Err(e) => CellOutcome::MalformedInput(e),
        Ok(vm) => match validate_spec(vm) {
            ValidationOutcome::Valid => CellOutcome::Valid,
            ValidationOutcome::Rejected(reason) => CellOutcome::Rejected(reason),
        },
    }
}

/// Decodes one cell's record-vector bytes and validates the result, as the
/// transaction-scanning driver does for each relevant cell.
pub fn check_cell(data: &[u8]) -> (r: CellOutcome)
    ensures
        r == check_cell_spec(data@),
{
    match KuaiMvpView::new(data) {
        Err(e) => CellOutcome::MalformedInput(e),
        Ok(view) => match view.verify() {
            ValidationOutcome::Valid => CellOutcome::Valid,
            ValidationOutcome::Rejected(reason) => CellOutcome::Rejected(reason),
        },
    }
}

} // verus!
