use kuai_mvp_types::errors::CodecError;
use kuai_mvp_types::record::{encode_record_vector, Record};
use kuai_mvp_types::view::{Data, KuaiMvpView};

fn sample_view() -> KuaiMvpView {
    KuaiMvpView {
        addresses: vec![
            Data {
                key: String::from("ckb"),
                value: String::from("123"),
            },
            Data {
                key: String::from("1234"),
                value: String::from("1234"),
            },
        ],
    }
}

#[test]
fn it_works() {
    let mut address_vec: Vec<Data> = Vec::new();

    address_vec.push(Data {
        key: String::from("123"),
        value: String::from("123"),
    });
    address_vec.push(Data {
        key: String::from("1234"),
        value: String::from("1234"),
    });
    address_vec.push(Data {
        key: String::from("12345"),
        value: String::from("12345"),
    });

    let x = KuaiMvpView {
        addresses: address_vec,
    };

    let x1 = x.try_to_binary().unwrap();

    let result = KuaiMvpView::new(&x1);
    assert_eq!(result.unwrap(), x);
}

#[test]
fn view_round_trip() {
    let view = sample_view();
    let bytes = view.try_to_binary().unwrap();
    let decoded = KuaiMvpView::new(&bytes).unwrap();
    assert_eq!(decoded, view);
}

#[test]
fn view_round_trip_unicode() {
    let view = KuaiMvpView {
        addresses: vec![Data {
            key: String::from("ckb"),
            value: String::from("ü 键 🔑"),
        }],
    };
    let bytes = view.try_to_binary().unwrap();
    let decoded = KuaiMvpView::new(&bytes).unwrap();
    assert_eq!(decoded, view);
}

#[test]
fn view_exact_bytes() {
    let view = KuaiMvpView {
        addresses: vec![Data {
            key: String::from("a"),
            value: String::from("b"),
        }],
    };
    assert_eq!(
        view.try_to_binary().unwrap(),
        vec![1u8, 0, 0, 0, 8, 0, 0, 0, 8, 0, 0, 0, 9, 0, 0, 0, 97, 98]
    );
}

#[test]
fn decode_is_idempotent() {
    let bytes = sample_view().try_to_binary().unwrap();
    let first = KuaiMvpView::new(&bytes);
    let second = KuaiMvpView::new(&bytes);
    assert_eq!(first, second);

    let broken = vec![7u8, 7, 7];
    assert_eq!(KuaiMvpView::new(&broken), KuaiMvpView::new(&broken));
}

#[test]
fn decode_propagates_structural_errors() {
    assert_eq!(
        KuaiMvpView::new(&[1, 2, 3]),
        Err(CodecError::HeaderIsBroken)
    );
    assert_eq!(
        KuaiMvpView::new(&[0, 0, 0, 0, 0]),
        Err(CodecError::TotalSizeNotMatch)
    );
}

#[test]
fn decode_rejects_invalid_utf8() {
    let records = vec![Record {
        key: vec![0xFF, 0xFE],
        value: vec![97],
    }];
    let bytes = encode_record_vector(&records);
    assert_eq!(KuaiMvpView::new(&bytes), Err(CodecError::TextDecodeError));
}

#[test]
fn empty_view_round_trip() {
    let view = KuaiMvpView { addresses: vec![] };
    let bytes = view.try_to_binary().unwrap();
    assert_eq!(bytes, vec![0u8, 0, 0, 0]);
    let decoded = KuaiMvpView::new(&bytes).unwrap();
    assert_eq!(decoded, view);
}
