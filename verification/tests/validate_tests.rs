use kuai_mvp_types::errors::CodecError;
use kuai_mvp_types::validate::{check_cell, CellOutcome, RejectReason, ValidationOutcome};
use kuai_mvp_types::view::{Data, KuaiMvpView};

fn pair(key: &str, value: &str) -> Data {
    Data {
        key: String::from(key),
        value: String::from(value),
    }
}

#[test]
fn test_success() {
    // A record set whose first key is the reserved one passes the whole
    // pipeline: encode, decode, validate.
    let view = KuaiMvpView {
        addresses: vec![pair("ckb", "123"), pair("1234", "1234"), pair("12345", "12345")],
    };
    let bytes = view.try_to_binary().unwrap();
    let decoded = KuaiMvpView::new(&bytes).unwrap();
    assert_eq!(decoded.verify(), ValidationOutcome::Valid);
    assert_eq!(check_cell(&bytes), CellOutcome::Valid);
}

#[test]
fn test_error() {
    // The same record set with a wrong first key is rejected.
    let view = KuaiMvpView {
        addresses: vec![pair("test", "123"), pair("1234", "1234"), pair("12345", "12345")],
    };
    let bytes = view.try_to_binary().unwrap();
    let decoded = KuaiMvpView::new(&bytes).unwrap();
    assert_eq!(
        decoded.verify(),
        ValidationOutcome::Rejected(RejectReason::PrimaryKeyMismatch)
    );
    assert_eq!(
        check_cell(&bytes),
        CellOutcome::Rejected(RejectReason::PrimaryKeyMismatch)
    );
}

#[test]
fn validator_minimal_pass() {
    let view = KuaiMvpView {
        addresses: vec![pair("ckb", "123"), pair("1234", "1234")],
    };
    assert_eq!(view.verify(), ValidationOutcome::Valid);
}

#[test]
fn validator_first_key_rule() {
    let view = KuaiMvpView {
        addresses: vec![pair("test", "123")],
    };
    assert_eq!(
        view.verify(),
        ValidationOutcome::Rejected(RejectReason::PrimaryKeyMismatch)
    );
}

#[test]
fn validator_empty_rule() {
    let view = KuaiMvpView { addresses: vec![] };
    assert_eq!(
        view.verify(),
        ValidationOutcome::Rejected(RejectReason::EmptyRecordSet)
    );
}

#[test]
fn check_cell_malformed_input() {
    assert_eq!(
        check_cell(&[0, 0, 0]),
        CellOutcome::MalformedInput(CodecError::HeaderIsBroken)
    );
    assert_eq!(
        check_cell(&[0, 0, 0, 0, 1]),
        CellOutcome::MalformedInput(CodecError::TotalSizeNotMatch)
    );
}

#[test]
fn check_cell_empty_record_set() {
    // An empty vector decodes cleanly but breaks the business rule.
    assert_eq!(
        check_cell(&[0, 0, 0, 0]),
        CellOutcome::Rejected(RejectReason::EmptyRecordSet)
    );
}
