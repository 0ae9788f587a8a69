//! The view layer: the decoded, text-based form of a record vector, and the
//! conversions between it and the binary form.

use vstd::prelude::*;
use vstd::string::StrSliceExecFns;
use vstd::utf8::{
    decode_utf8, encode_utf8, encode_utf8_decode_utf8, encode_utf8_valid_utf8, valid_utf8,
};

use crate::codec::NUMBER_LIMIT;
use crate::errors::CodecError;
use crate::record::{
    decode_record_vector, decode_vector_spec, encode_record_vector, encode_vector_spec,
    item_offset, lemma_prefix_size_monotone, lemma_vector_round_trip, prefix_size, record_size,
    records_view, vector_size, Record,
};
use crate::text::bytes_to_string;

verus! {

broadcast use vstd::slice::axiom_spec_len;

/// One record of a view: a key/value pair of owned text.
#[derive(Debug, PartialEq, Eq)]
pub struct Data {
    pub key: String,
    pub value: String,
}

impl View for Data {
    type V = (Seq<char>, Seq<char>);

    open spec fn view(&self) -> (Seq<char>, Seq<char>) {
        (self.key@, self.value@)
    }
}

/// The application-facing form of a record vector: an ordered list of
/// key/value text pairs.
#[derive(Debug, PartialEq, Eq)]
pub struct KuaiMvpView {
    pub addresses: Vec<Data>,
}

/// The text pairs of a sequence of view records.
pub open spec fn data_views(ds: Seq<Data>) -> Seq<(Seq<char>, Seq<char>)> {
    ds.map_values(|d: Data| d@)
}

impl View for KuaiMvpView {
    type V = Seq<(Seq<char>, Seq<char>)>;

    open spec fn view(&self) -> Seq<(Seq<char>, Seq<char>)> {
        data_views(self.addresses@)
    }
}

/// The raw byte fields that a view's records carry under UTF-8.
pub open spec fn text_bytes(vm: Seq<(Seq<char>, Seq<char>)>) -> Seq<(Seq<u8>, Seq<u8>)> {
    vm.map_values(|p: (Seq<char>, Seq<char>)| (encode_utf8(p.0), encode_utf8(p.1)))
}

/// Both fields of every record are valid UTF-8.
pub open spec fn all_fields_utf8(items: Seq<(Seq<u8>, Seq<u8>)>) -> bool {
    forall|i: int|
        0 <= i < items.len() ==> valid_utf8((#[trigger] items[i]).0) && valid_utf8(items[i].1)
}

/// The text carried by each record's raw fields.
pub open spec fn decoded_fields(items: Seq<(Seq<u8>, Seq<u8>)>) -> Seq<(Seq<char>, Seq<char>)>
    recommends
        all_fields_utf8(items),
{
    items.map_values(|p: (Seq<u8>, Seq<u8>)| (decode_utf8(p.0), decode_utf8(p.1)))
}

/// What decoding a view from binary record-vector bytes returns, for every
/// possible buffer: the structural error of the vector codec, the text of
/// every record when all fields are UTF-8, and `TextDecodeError` otherwise.
pub open spec fn view_from_binary_spec(data: Seq<u8>) -> Result<
    Seq<(Seq<char>, Seq<char>)>,
    CodecError,
> {
    match decode_vector_spec(data) {
        Err(e) => Err(e),
        Ok(items) => if all_fields_utf8(items) {
            Ok(decoded_fields(items))
        } else {
            Err(CodecError::TextDecodeError)
        },
    }
}

/// `r` is a result that the binary decode contract allows for `data`: its
/// view (or its error) equals what `view_from_binary_spec` returns.
pub open spec fn view_from_binary_post(data: Seq<u8>, r: Result<KuaiMvpView, CodecError>) -> bool {
    match r {
        Ok(v) => view_from_binary_spec(data) == Ok::<Seq<(Seq<char>, Seq<char>)>, CodecError>(v@),
        Err(e) => view_from_binary_spec(data) == Err::<Seq<(Seq<char>, Seq<char>)>, CodecError>(e),
    }
}

/// Converts each record's raw fields to owned text, or reports the first
/// record whose fields are not valid UTF-8.
fn texts_of_records(records: &Vec<Record>) -> (r: Option<Vec<Data>>)
    ensures
        r matches Some(ds) ==> all_fields_utf8(records_view(records@)) && data_views(ds@)
            == decoded_fields(records_view(records@)),
        r is None ==> !all_fields_utf8(records_view(records@)),
{
    let ghost items = records_view(records@);
    let count = records.len();
    let mut addresses: Vec<Data> = Vec::new();
    let mut i: usize = 0;
    while i < count
        invariant
            0 <= i <= count,
            count == records@.len(),
            items == records_view(records@),
            addresses@.len() == i,
            forall|j: int|
                0 <= j < i ==> valid_utf8((#[trigger] items[j]).0) && valid_utf8(items[j].1),
            forall|j: int|
                0 <= j < i ==> #[trigger] addresses@[j]@ == (
                    decode_utf8(items[j].0),
                    decode_utf8(items[j].1),
                ),
        decreases count - i,
    {
        let rec = &records[i];
        proof {
            assert(items[i as int] == rec@);
        }
        let key = match bytes_to_string(rec.key.as_slice()) {
            Some(s) => s,
            None => {
                proof {
                    assert(!valid_utf8(items[i as int].0));
                }
                return None;
            },
        };
        let value = match bytes_to_string(rec.value.as_slice()) {
            Some(s) => s,
            None => {
                proof {
                    assert(!valid_utf8(items[i as int].1));
                }
                return None;
            },
        };
        proof {
            assert(valid_utf8(items[i as int].0) && valid_utf8(items[i as int].1));
            assert(key@ == decode_utf8(items[i as int].0));
            assert(value@ == decode_utf8(items[i as int].1));
        }
        addresses.push(Data { key, value });
        i += 1;
    }
    proof {
        assert(all_fields_utf8(items));
        assert(data_views(addresses@) =~= decoded_fields(items));
    }
    Some(addresses)
}

impl KuaiMvpView {
    /// Decodes a view from the binary record-vector bytes of `data`.
    pub fn new(data: &[u8]) -> (r: Result<KuaiMvpView, CodecError>)
        ensures
            view_from_binary_post(data@, r),
    {
        let records = match decode_record_vector(data) {
            Ok(rs) => rs,
            Err(e) => {
                return Err(e);
            },
        };
        match texts_of_records(&records) {
            Some(addresses) => Ok(KuaiMvpView { addresses }),
            None => Err(CodecError::TextDecodeError),
        }
    }

    /// Encodes the view as binary record-vector bytes.
    pub fn to_binary(&self) -> (r: Vec<u8>)
        requires
            vector_size(text_bytes(self@)) < NUMBER_LIMIT,
        ensures
            r@ == encode_vector_spec(text_bytes(self@)),
    {
        let count = self.addresses.len();
        let mut records: Vec<Record> = Vec::new();
        let mut i: usize = 0;
        while i < count
            invariant
                0 <= i <= count,
                count == self.addresses@.len(),
                records@.len() == i,
                forall|j: int| 0 <= j < i ==> #[trigger] records@[j]@ == text_bytes(self@)[j],
            decreases count - i,
        {
            let d = &self.addresses[i];
            proof {
                assert(self@[i as int] == d@);
            }
            let key = d.key.as_str().as_bytes_vec();
            let value = d.value.as_str().as_bytes_vec();
            records.push(Record { key, value });
            i += 1;
        }
        proof {
            assert(records_view(records@) =~= text_bytes(self@));
        }
        encode_record_vector(&records)
    }

    /// Encodes the view as binary record-vector bytes, first checking that
    /// the encoding fits the format's 4-byte size unit; returns `None` for a
    /// view too large to encode.
    pub fn try_to_binary(&self) -> (r: Option<Vec<u8>>)
        ensures
            r matches Some(b) ==> vector_size(text_bytes(self@)) < NUMBER_LIMIT && b@
                == encode_vector_spec(text_bytes(self@)),
            r is None ==> vector_size(text_bytes(self@)) >= NUMBER_LIMIT,
    {
        let ghost items = text_bytes(self@);
        let count = self.addresses.len();
        proof {
            assert(items.len() == count);
            lemma_prefix_size_monotone(items, 0, items.len() as int);
        }
        if (count as u64) >= 0x3FFF_FFFFu64 {
            proof {
                assert(vector_size(items) >= 4 + 4 * items.len());
            }
            return None;
        }
        let mut total: u64 = 4 + 4 * (count as u64);
        let mut i: usize = 0;
        while i < count
            invariant
                0 <= i <= count,
                count == self.addresses@.len(),
                count < 0x3FFF_FFFF,
                items == text_bytes(self@),
                items.len() == count,
                total as int == item_offset(items, i as int),
                total < NUMBER_LIMIT,
            decreases count - i,
        {
            let d = &self.addresses[i];
            proof {
                assert(self@[i as int] == d@);
                assert(items[i as int] == (encode_utf8(d.key@), encode_utf8(d.value@)));
                lemma_prefix_size_monotone(items, i as int + 1, items.len() as int);
            }
            let klen = d.key.as_str().as_bytes().len();
            let vlen = d.value.as_str().as_bytes().len();
            proof {
                assert(klen == encode_utf8(d.key@).len());
                assert(vlen == encode_utf8(d.value@).len());
                assert(record_size(items[i as int]) == 8 + klen + vlen);
            }
            if (klen as u64) >= NUMBER_LIMIT || (vlen as u64) >= NUMBER_LIMIT {
                proof {
                    lemma_prefix_size_monotone(items, 0, i as int);
                    assert(vector_size(items) >= prefix_size(items, items.len() as int));
                    assert(prefix_size(items, i as int + 1) >= record_size(items[i as int]));
                }
                return None;
            }
            let add: u64 = 8 + (klen as u64) + (vlen as u64);
            proof {
                assert(add as int == record_size(items[i as int]));
                assert(total as int + add as int == item_offset(items, i as int + 1));
            }
            if total + add >= NUMBER_LIMIT {
                return None;
            }
            total = total + add;
            i += 1;
        }
        Some(self.to_binary())
    }
}

/// Round trip: a view whose encoding fits the format's 4-byte size unit
/// decodes from its own binary form back to exactly itself.
pub proof fn lemma_view_round_trip(vm: Seq<(Seq<char>, Seq<char>)>)
    requires
        vector_size(text_bytes(vm)) < NUMBER_LIMIT,
    ensures
        view_from_binary_spec(encode_vector_spec(text_bytes(vm))) == Ok::<
            Seq<(Seq<char>, Seq<char>)>,
            CodecError,
        >(vm),
{
    let items = text_bytes(vm);
    lemma_vector_round_trip(items);
    assert forall|i: int| 0 <= i < items.len() implies valid_utf8(#[trigger] items[i].0)
        && valid_utf8(items[i].1) by {
        encode_utf8_valid_utf8(vm[i].0);
        encode_utf8_valid_utf8(vm[i].1);
    }
    assert(decoded_fields(items) =~= vm) by {
        assert forall|i: int| 0 <= i < items.len() implies #[trigger] decoded_fields(items)[i]
            == vm[i] by {
            encode_utf8_decode_utf8(vm[i].0);
            encode_utf8_decode_utf8(vm[i].1);
        }
    }
}

/// Decoding has no hidden state: any two results that the decode contract
/// allows for the same buffer are the same view, or the same error.
pub proof fn lemma_decode_idempotent(
    data: Seq<u8>,
    r1: Result<KuaiMvpView, CodecError>,
    r2: Result<KuaiMvpView, CodecError>,
)
    requires
        view_from_binary_post(data, r1),
        view_from_binary_post(data, r2),
    ensures
        r1 matches Ok(v1) ==> r2 matches Ok(v2) && v1@ == v2@,
        r1 matches Err(e1) ==> r2 matches Err(e2) && e1 == e2,
{
}

} // verus!
