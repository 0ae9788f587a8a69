//! The record codec: a two-field record (`key`, `value`) laid out behind an
//! offset table, and a record vector with an item count, a per-item offset
//! table and the concatenated record bytes.

use vstd::prelude::*;
use vstd::slice::{slice_subrange, slice_to_vec};

use crate::codec::{
    le_number, lemma_number_round_trip, number_bytes, push_number, push_slice, read_number,
    NUMBER_LIMIT, NUMBER_SIZE,
};
use crate::errors::CodecError;

verus! {

/// Size in bytes of a record's offset table: one number unit per field.
pub const RECORD_HEADER_SIZE: usize = 8;

/// A decoded record: an ordered pair of raw byte fields.
#[derive(Debug, PartialEq, Eq)]
pub struct Record {
    pub key: Vec<u8>,
    pub value: Vec<u8>,
}

impl View for Record {
    type V = (Seq<u8>, Seq<u8>);

    open spec fn view(&self) -> (Seq<u8>, Seq<u8>) {
        (self.key@, self.value@)
    }
}

/// The raw fields of a sequence of records.
pub open spec fn records_view(rs: Seq<Record>) -> Seq<(Seq<u8>, Seq<u8>)> {
    rs.map_values(|rec: Record| rec@)
}

/// Total encoded size of one record: its offset table plus both fields.
pub open spec fn record_size(item: (Seq<u8>, Seq<u8>)) -> int {
    8 + item.0.len() as int + item.1.len() as int
}

/// The binary form of a record: the offset of each field from the record's
/// start, then the flat bytes of the key and the value.
pub open spec fn encode_record_spec(item: (Seq<u8>, Seq<u8>)) -> Seq<u8>
    recommends
        record_size(item) < NUMBER_LIMIT,
{
    number_bytes(8) + number_bytes(8 + item.0.len() as int) + item.0 + item.1
}

/// The result of decoding a record from exactly the bytes of `s`, or the
/// structural error the buffer earns. The key runs from the first offset to
/// the second, the value from the second offset to the end; a record whose
/// offsets leave slack before the first field, run backwards, or point past
/// the end is rejected.
pub open spec fn decode_record_spec(s: Seq<u8>) -> Result<(Seq<u8>, Seq<u8>), CodecError> {
    if s.len() < 8 {
        Err(CodecError::HeaderIsBroken)
    } else {
        let off_key = le_number(s.subrange(0, 4));
        let off_value = le_number(s.subrange(4, 8));
        if off_key != 8 || off_value < 8 || off_value > s.len() {
            Err(CodecError::OffsetsNotMatch)
        } else {
            Ok((s.subrange(8, off_value), s.subrange(off_value, s.len() as int)))
        }
    }
}

/// Decoding an encoded record yields exactly the fields it was built from.
pub proof fn lemma_record_round_trip(item: (Seq<u8>, Seq<u8>))
    requires
        record_size(item) < NUMBER_LIMIT,
    ensures
        encode_record_spec(item).len() == record_size(item),
        decode_record_spec(encode_record_spec(item)) == Ok::<(Seq<u8>, Seq<u8>), CodecError>(item),
{
    let s = encode_record_spec(item);
    let off_value = 8 + item.0.len() as int;
    lemma_number_round_trip(8);
    lemma_number_round_trip(off_value);
    assert(s.subrange(0, 4) =~= number_bytes(8));
    assert(s.subrange(4, 8) =~= number_bytes(off_value));
    assert(s.subrange(8, off_value) =~= item.0);
    assert(s.subrange(off_value, s.len() as int) =~= item.1);
}

/// Decodes a record from exactly the bytes of `slice`.
pub fn decode_record(slice: &[u8]) -> (r: Result<Record, CodecError>)
    ensures
        r matches Ok(rec) ==> decode_record_spec(slice@) == Ok::<(Seq<u8>, Seq<u8>), CodecError>(
            rec@,
        ),
        r matches Err(e) ==> decode_record_spec(slice@) == Err::<(Seq<u8>, Seq<u8>), CodecError>(
            e,
        ),
{
    let total = slice.len();
    if total < RECORD_HEADER_SIZE {
        return Err(CodecError::HeaderIsBroken);
    }
    let off_key = read_number(slice, 0);
    let off_value = read_number(slice, 4);
    if off_key != 8 || off_value < 8 || (off_value as u64) > (total as u64) {
        return Err(CodecError::OffsetsNotMatch);
    }
    let split = off_value as usize;
    let key = slice_to_vec(slice_subrange(slice, 8, split));
    let value = slice_to_vec(slice_subrange(slice, split, total));
    Ok(Record { key, value })
}

/// Encodes one record from its two raw fields.
pub fn encode_record(key: &[u8], value: &[u8]) -> (r: Vec<u8>)
    requires
        8 + key@.len() + value@.len() < NUMBER_LIMIT,
    ensures
        r@ == encode_record_spec((key@, value@)),
{
    let mut out: Vec<u8> = Vec::new();
    push_number(&mut out, 8);
    push_number(&mut out, 8 + key.len() as u32);
    push_slice(&mut out, key);
    push_slice(&mut out, value);
    assert(out@ =~= encode_record_spec((key@, value@)));
    out
}

/// Combined size of the first `i` items' encodings.
pub open spec fn prefix_size(items: Seq<(Seq<u8>, Seq<u8>)>, i: int) -> int
    recommends
        0 <= i <= items.len(),
    decreases i,
{
    if i <= 0 {
        0
    } else {
        prefix_size(items, i - 1) + record_size(items[i - 1])
    }
}

/// Byte offset of item `i` from the start of the encoded vector: the count
/// field, the offset table, and every earlier item come first.
pub open spec fn item_offset(items: Seq<(Seq<u8>, Seq<u8>)>, i: int) -> int
    recommends
        0 <= i <= items.len(),
{
    4 + 4 * items.len() + prefix_size(items, i)
}

/// Total encoded size of a record vector.
pub open spec fn vector_size(items: Seq<(Seq<u8>, Seq<u8>)>) -> int {
    item_offset(items, items.len() as int)
}

/// The offset table of the encoded vector, from item `i` on.
pub open spec fn offsets_bytes(items: Seq<(Seq<u8>, Seq<u8>)>, i: int) -> Seq<u8>
    recommends
        0 <= i <= items.len(),
    decreases items.len() - i,
{
    if i >= items.len() {
        Seq::empty()
    } else {
        number_bytes(item_offset(items, i)) + offsets_bytes(items, i + 1)
    }
}

/// The concatenated record bytes of the encoded vector, from item `i` on.
pub open spec fn records_bytes(items: Seq<(Seq<u8>, Seq<u8>)>, i: int) -> Seq<u8>
    recommends
        0 <= i <= items.len(),
    decreases items.len() - i,
{
    if i >= items.len() {
        Seq::empty()
    } else {
        encode_record_spec(items[i]) + records_bytes(items, i + 1)
    }
}

/// The binary form of a record vector: the item count, one offset per item,
/// then every record's bytes in order.
pub open spec fn encode_vector_spec(items: Seq<(Seq<u8>, Seq<u8>)>) -> Seq<u8>
    recommends
        vector_size(items) < NUMBER_LIMIT,
{
    number_bytes(items.len() as int) + offsets_bytes(items, 0) + records_bytes(items, 0)
}

/// Prefix sizes grow with the index, by at least the record header per item.
pub proof fn lemma_prefix_size_monotone(items: Seq<(Seq<u8>, Seq<u8>)>, i: int, j: int)
    requires
        0 <= i <= j <= items.len(),
    ensures
        prefix_size(items, i) + 8 * (j - i) <= prefix_size(items, j),
    decreases j - i,
{
    if i < j {
        lemma_prefix_size_monotone(items, i, j - 1);
    }
}

pub proof fn lemma_offsets_bytes_len(items: Seq<(Seq<u8>, Seq<u8>)>, i: int)
    requires
        0 <= i <= items.len(),
    ensures
        offsets_bytes(items, i).len() == 4 * (items.len() - i),
    decreases items.len() - i,
{
    if i < items.len() {
        lemma_offsets_bytes_len(items, i + 1);
    }
}

pub proof fn lemma_records_bytes_len(items: Seq<(Seq<u8>, Seq<u8>)>, i: int)
    requires
        0 <= i <= items.len(),
    ensures
        records_bytes(items, i).len() == prefix_size(items, items.len() as int) - prefix_size(
            items,
            i,
        ),
    decreases items.len() - i,
{
    if i < items.len() {
        lemma_records_bytes_len(items, i + 1);
    }
}

proof fn lemma_offsets_bytes_index(items: Seq<(Seq<u8>, Seq<u8>)>, i: int, j: int)
    requires
        0 <= i <= j < items.len(),
    ensures
        offsets_bytes(items, i).subrange(4 * (j - i), 4 * (j - i) + 4) == number_bytes(
            item_offset(items, j),
        ),
    decreases j - i,
{
    lemma_offsets_bytes_len(items, i);
    if i == j {
        assert(offsets_bytes(items, i).subrange(0, 4) =~= number_bytes(item_offset(items, i)));
    } else {
        lemma_offsets_bytes_index(items, i + 1, j);
        lemma_offsets_bytes_len(items, i + 1);
        assert(offsets_bytes(items, i).subrange(4 * (j - i), 4 * (j - i) + 4) =~= offsets_bytes(
            items,
            i + 1,
        ).subrange(4 * (j - i - 1), 4 * (j - i - 1) + 4));
    }
}

proof fn lemma_records_bytes_index(items: Seq<(Seq<u8>, Seq<u8>)>, i: int, j: int)
    requires
        0 <= i <= j < items.len(),
    ensures
        records_bytes(items, i).subrange(
            prefix_size(items, j) - prefix_size(items, i),
            prefix_size(items, j + 1) - prefix_size(items, i),
        ) == encode_record_spec(items[j]),
    decreases j - i,
{
    lemma_records_bytes_len(items, i);
    lemma_prefix_size_monotone(items, i, j);
    if i == j {
        assert(encode_record_spec(items[i]).len() == record_size(items[i]));
        lemma_records_bytes_len(items, i + 1);
        lemma_prefix_size_monotone(items, i + 1, items.len() as int);
        assert(records_bytes(items, i).subrange(0, record_size(items[i])) =~= encode_record_spec(
            items[i],
        ));
    } else {
        lemma_prefix_size_monotone(items, i + 1, j);
        lemma_prefix_size_monotone(items, j + 1, items.len() as int);
        lemma_records_bytes_index(items, i + 1, j);
        lemma_records_bytes_len(items, i + 1);
        let head = encode_record_spec(items[i]);
        let tail = records_bytes(items, i + 1);
        let lo = prefix_size(items, j) - prefix_size(items, i);
        let hi = prefix_size(items, j + 1) - prefix_size(items, i);
        assert(head.len() == record_size(items[i]));
        assert(records_bytes(items, i) == head + tail);
        assert(prefix_size(items, i + 1) == prefix_size(items, i) + record_size(items[i]));
        assert((head + tail).subrange(lo, hi) =~= tail.subrange(
            lo - head.len(),
            hi - head.len(),
        ));
    }
}

/// An encoded vector's length is exactly its declared total size.
pub proof fn lemma_encode_vector_len(items: Seq<(Seq<u8>, Seq<u8>)>)
    ensures
        encode_vector_spec(items).len() == vector_size(items),
{
    lemma_offsets_bytes_len(items, 0);
    lemma_records_bytes_len(items, 0);
}

/// The offset table of an encoded vector stores the true offset of item `j`.
pub proof fn lemma_encode_vector_offset(items: Seq<(Seq<u8>, Seq<u8>)>, j: int)
    requires
        0 <= j < items.len(),
        vector_size(items) < NUMBER_LIMIT,
    ensures
        vec_offset(encode_vector_spec(items), j) == item_offset(items, j),
{
    let s = encode_vector_spec(items);
    lemma_offsets_bytes_len(items, 0);
    lemma_offsets_bytes_index(items, 0, j);
    assert(s.subrange(4 + 4 * j, 8 + 4 * j) =~= offsets_bytes(items, 0).subrange(
        4 * j,
        4 * j + 4,
    ));
    assert(0 <= item_offset(items, j) < NUMBER_LIMIT) by {
        lemma_prefix_size_monotone(items, 0, j);
        lemma_prefix_size_monotone(items, j, items.len() as int);
    }
    lemma_number_round_trip(item_offset(items, j));
}

/// The byte range of item `j` in an encoded vector holds exactly that item's
/// record encoding.
pub proof fn lemma_encode_vector_segment(items: Seq<(Seq<u8>, Seq<u8>)>, j: int)
    requires
        0 <= j < items.len(),
    ensures
        encode_vector_spec(items).subrange(item_offset(items, j), item_offset(items, j + 1))
            == encode_record_spec(items[j]),
{
    let s = encode_vector_spec(items);
    let n = items.len() as int;
    lemma_offsets_bytes_len(items, 0);
    lemma_records_bytes_len(items, 0);
    lemma_records_bytes_index(items, 0, j);
    lemma_prefix_size_monotone(items, 0, j);
    lemma_prefix_size_monotone(items, j + 1, n);
    assert(s.subrange(item_offset(items, j), item_offset(items, j + 1)) =~= records_bytes(
        items,
        0,
    ).subrange(prefix_size(items, j), prefix_size(items, j + 1)));
}

/// The item count stored in the first number unit of an encoded vector.
pub open spec fn vec_count(s: Seq<u8>) -> int
    recommends
        s.len() >= 4,
{
    le_number(s.subrange(0, 4))
}

/// The offset stored in the offset table for item `i`.
pub open spec fn vec_offset(s: Seq<u8>, i: int) -> int
    recommends
        8 + 4 * i <= s.len(),
{
    le_number(s.subrange(4 + 4 * i, 8 + 4 * i))
}

/// Where item `i`'s byte range ends: at the next item's offset, or at the end
/// of the buffer for the last item.
pub open spec fn vec_item_end(s: Seq<u8>, count: int, i: int) -> int {
    if i + 1 < count {
        vec_offset(s, i + 1)
    } else {
        s.len() as int
    }
}

/// The offset table of a vector buffer is well-formed: the first item starts
/// right after the table, offsets never decrease, and none points past the
/// end of the buffer.
pub open spec fn offsets_ok(s: Seq<u8>, count: int) -> bool {
    &&& vec_offset(s, 0) == 4 + 4 * count
    &&& forall|i: int| 0 <= i < count ==> #[trigger] vec_offset(s, i) <= s.len()
    &&& forall|i: int| 0 <= i < count - 1 ==> #[trigger] vec_offset(s, i) <= vec_offset(s, i + 1)
}

/// Decodes items `i` through `count - 1` from their byte ranges in `s`,
/// stopping at the first item that fails to decode.
pub open spec fn decode_items_spec(s: Seq<u8>, count: int, i: int) -> Result<
    Seq<(Seq<u8>, Seq<u8>)>,
    CodecError,
>
    recommends
        0 <= i <= count,
        offsets_ok(s, count),
    decreases count - i,
{
    if i >= count {
        Ok(Seq::empty())
    } else {
        match decode_record_spec(s.subrange(vec_offset(s, i), vec_item_end(s, count, i))) {
            Err(e) => Err(e),
            Ok(item) => match decode_items_spec(s, count, i + 1) {
                Err(e) => Err(e),
                Ok(rest) => Ok(seq![item] + rest),
            },
        }
    }
}

/// The result of decoding a record vector from exactly the bytes of `s`, or
/// the structural error the buffer earns. A vector with count zero must be
/// exactly its count field; one with a nonzero count must hold its full
/// offset table, a well-formed set of offsets, and a decodable record in
/// every item range.
pub open spec fn decode_vector_spec(s: Seq<u8>) -> Result<Seq<(Seq<u8>, Seq<u8>)>, CodecError> {
    if s.len() < 4 {
        Err(CodecError::HeaderIsBroken)
    } else {
        let count = vec_count(s);
        if count == 0 {
            if s.len() == 4 {
                Ok(Seq::empty())
            } else {
                Err(CodecError::TotalSizeNotMatch)
            }
        } else if s.len() < 4 + 4 * count {
            Err(CodecError::TotalSizeNotMatch)
        } else if !offsets_ok(s, count) {
            Err(CodecError::OffsetsNotMatch)
        } else {
            decode_items_spec(s, count, 0)
        }
    }
}

proof fn lemma_decode_items_round_trip(items: Seq<(Seq<u8>, Seq<u8>)>, i: int)
    requires
        vector_size(items) < NUMBER_LIMIT,
        0 <= i <= items.len(),
    ensures
        decode_items_spec(encode_vector_spec(items), items.len() as int, i) == Ok::<
            Seq<(Seq<u8>, Seq<u8>)>,
            CodecError,
        >(items.subrange(i, items.len() as int)),
    decreases items.len() - i,
{
    let s = encode_vector_spec(items);
    let n = items.len() as int;
    lemma_encode_vector_len(items);
    if i >= n {
        assert(items.subrange(n, n) =~= Seq::<(Seq<u8>, Seq<u8>)>::empty());
    } else {
        lemma_encode_vector_offset(items, i);
        if i + 1 < n {
            lemma_encode_vector_offset(items, i + 1);
        }
        assert(vec_item_end(s, n, i) == item_offset(items, i + 1));
        lemma_encode_vector_segment(items, i);
        assert(s.subrange(vec_offset(s, i), vec_item_end(s, n, i)) == encode_record_spec(
            items[i],
        ));
        assert(record_size(items[i]) < NUMBER_LIMIT) by {
            lemma_prefix_size_monotone(items, 0, i);
            lemma_prefix_size_monotone(items, i + 1, n);
        }
        lemma_record_round_trip(items[i]);
        lemma_decode_items_round_trip(items, i + 1);
        assert(seq![items[i]] + items.subrange(i + 1, n) =~= items.subrange(i, n));
    }
}

proof fn lemma_encode_vector_count(items: Seq<(Seq<u8>, Seq<u8>)>)
    requires
        vector_size(items) < NUMBER_LIMIT,
    ensures
        vec_count(encode_vector_spec(items)) == items.len(),
{
    let s = encode_vector_spec(items);
    let n = items.len() as int;
    lemma_prefix_size_monotone(items, 0, n);
    assert(s.subrange(0, 4) =~= number_bytes(n));
    lemma_number_round_trip(n);
}

proof fn lemma_encode_vector_offsets_ok(items: Seq<(Seq<u8>, Seq<u8>)>)
    requires
        0 < items.len(),
        vector_size(items) < NUMBER_LIMIT,
    ensures
        offsets_ok(encode_vector_spec(items), items.len() as int),
{
    let s = encode_vector_spec(items);
    let n = items.len() as int;
    lemma_encode_vector_len(items);
    lemma_encode_vector_offset(items, 0);
    assert forall|i: int| 0 <= i < n implies #[trigger] vec_offset(s, i) <= s.len() by {
        lemma_encode_vector_offset(items, i);
        lemma_prefix_size_monotone(items, i, n);
    }
    assert forall|i: int| 0 <= i < n - 1 implies #[trigger] vec_offset(s, i) <= vec_offset(
        s,
        i + 1,
    ) by {
        lemma_encode_vector_offset(items, i);
        lemma_encode_vector_offset(items, i + 1);
        lemma_prefix_size_monotone(items, i, i + 1);
    }
}

/// Decoding an encoded record vector yields exactly the items it was built
/// from.
#[verifier::rlimit(50)]
pub proof fn lemma_vector_round_trip(items: Seq<(Seq<u8>, Seq<u8>)>)
    requires
        vector_size(items) < NUMBER_LIMIT,
    ensures
        decode_vector_spec(encode_vector_spec(items)) == Ok::<Seq<(Seq<u8>, Seq<u8>)>, CodecError>(
            items,
        ),
{
    let s = encode_vector_spec(items);
    let n = items.len() as int;
    lemma_encode_vector_len(items);
    lemma_prefix_size_monotone(items, 0, n);
    lemma_encode_vector_count(items);
    if n == 0 {
        assert(items =~= Seq::<(Seq<u8>, Seq<u8>)>::empty());
    } else {
        lemma_encode_vector_offsets_ok(items);
        lemma_decode_items_round_trip(items, 0);
        assert(items.subrange(0, n) =~= items);
    }
}

/// A buffer too short to hold even the count field is rejected as broken,
/// whatever its bytes hold.
pub proof fn lemma_short_buffer_rejected(s: Seq<u8>)
    requires
        s.len() < 4,
    ensures
        decode_vector_spec(s) == Err::<Seq<(Seq<u8>, Seq<u8>)>, CodecError>(
            CodecError::HeaderIsBroken,
        ),
{
}

/// A vector whose declared count is nonzero but whose buffer is too short to
/// hold the offset table that count implies is rejected for its size, before
/// any offset or item is read.
pub proof fn lemma_truncated_table_rejected(s: Seq<u8>)
    requires
        s.len() >= 4,
        vec_count(s) > 0,
        s.len() < 4 + 4 * vec_count(s),
    ensures
        decode_vector_spec(s) == Err::<Seq<(Seq<u8>, Seq<u8>)>, CodecError>(
            CodecError::TotalSizeNotMatch,
        ),
{
}

/// A vector with count zero decodes, to the empty sequence, exactly when the
/// buffer is exactly the count field; any trailing byte is rejected.
pub proof fn lemma_empty_vector_exact(s: Seq<u8>)
    requires
        s.len() >= 4,
        vec_count(s) == 0,
    ensures
        s.len() == 4 ==> decode_vector_spec(s) == Ok::<Seq<(Seq<u8>, Seq<u8>)>, CodecError>(
            Seq::empty(),
        ),
        s.len() > 4 ==> decode_vector_spec(s) == Err::<Seq<(Seq<u8>, Seq<u8>)>, CodecError>(
            CodecError::TotalSizeNotMatch,
        ),
{
}

proof fn lemma_offset_chain_bound(s: Seq<u8>, count: int, j: int)
    requires
        0 <= j < count,
        forall|k: int| 0 <= k < count - 1 ==> #[trigger] vec_offset(s, k) <= vec_offset(s, k + 1),
    ensures
        vec_offset(s, j) <= vec_offset(s, count - 1),
    decreases count - j,
{
    if j < count - 1 {
        lemma_offset_chain_bound(s, count, j + 1);
    }
}

/// Checks the offset table of a vector buffer with a nonzero item count.
#[verifier::rlimit(50)]
fn check_offsets(slice: &[u8], count: usize) -> (ok: bool)
    requires
        1 <= count,
        4 + 4 * count <= slice@.len(),
    ensures
        ok == offsets_ok(slice@, count as int),
{
    let total = slice.len();
    let first = read_number(slice, 4);
    if (first as u64) != 4u64 + 4u64 * (count as u64) {
        return false;
    }
    let mut prev = first;
    let mut i: usize = 1;
    while i < count
        invariant
            1 <= i <= count,
            slice@.len() == total,
            4 + 4 * count <= total,
            prev as int == vec_offset(slice@, i - 1),
            vec_offset(slice@, 0) == 4 + 4 * count,
            forall|j: int|
                0 <= j < i - 1 ==> #[trigger] vec_offset(slice@, j) <= vec_offset(slice@, j + 1),
        decreases count - i,
    {
        let off = read_number(slice, 4 + 4 * i);
        if off < prev {
            proof {
                assert(vec_offset(slice@, i as int) < vec_offset(slice@, i - 1));
            }
            return false;
        }
        prev = off;
        i += 1;
    }
    if (prev as u64) > (total as u64) {
        return false;
    }
    proof {
        assert forall|j: int| 0 <= j < count implies #[trigger] vec_offset(slice@, j)
            <= slice@.len() by {
            lemma_offset_chain_bound(slice@, count as int, j);
        }
    }
    true
}

/// Decodes a record vector from exactly the bytes of `slice`.
#[verifier::rlimit(50)]
pub fn decode_record_vector(slice: &[u8]) -> (r: Result<Vec<Record>, CodecError>)
    ensures
        r matches Ok(v) ==> decode_vector_spec(slice@) == Ok::<Seq<(Seq<u8>, Seq<u8>)>, CodecError>(
            records_view(v@),
        ),
        r matches Err(e) ==> decode_vector_spec(slice@) == Err::<
            Seq<(Seq<u8>, Seq<u8>)>,
            CodecError,
        >(e),
{
    let total = slice.len();
    if total < NUMBER_SIZE {
        return Err(CodecError::HeaderIsBroken);
    }
    let count32 = read_number(slice, 0);
    if count32 == 0 {
        if total == 4 {
            let empty: Vec<Record> = Vec::new();
            proof {
                assert(records_view(empty@) =~= Seq::<(Seq<u8>, Seq<u8>)>::empty());
            }
            return Ok(empty);
        } else {
            return Err(CodecError::TotalSizeNotMatch);
        }
    }
    if (total as u64) < 4u64 + 4u64 * (count32 as u64) {
        return Err(CodecError::TotalSizeNotMatch);
    }
    let count = count32 as usize;
    if !check_offsets(slice, count) {
        return Err(CodecError::OffsetsNotMatch);
    }
    let mut out: Vec<Record> = Vec::new();
    let mut k: usize = 0;
    while k < count
        invariant
            0 <= k <= count,
            count == count32 as int,
            vec_count(slice@) == count,
            1 <= count,
            slice@.len() == total,
            4 + 4 * count <= total,
            offsets_ok(slice@, count as int),
            out@.len() == k,
            decode_items_spec(slice@, count as int, k as int) matches Ok(rest)
                ==> decode_items_spec(slice@, count as int, 0) == Ok::<
                Seq<(Seq<u8>, Seq<u8>)>,
                CodecError,
            >(records_view(out@) + rest),
            decode_items_spec(slice@, count as int, k as int) is Err ==> decode_items_spec(
                slice@,
                count as int,
                0,
            ) == decode_items_spec(slice@, count as int, k as int),
        decreases count - k,
    {
        let start = read_number(slice, 4 + 4 * k) as usize;
        let end = if k + 1 < count {
            read_number(slice, 4 + 4 * (k + 1)) as usize
        } else {
            total
        };
        proof {
            assert(start as int == vec_offset(slice@, k as int));
            assert(end as int == vec_item_end(slice@, count as int, k as int));
            assert(start <= end);
        }
        let ghost old_out = out@;
        match decode_record(slice_subrange(slice, start, end)) {
            Err(e) => {
                proof {
                    assert(decode_items_spec(slice@, count as int, k as int) == Err::<
                        Seq<(Seq<u8>, Seq<u8>)>,
                        CodecError,
                    >(e));
                }
                return Err(e);
            },
            Ok(rec) => {
                proof {
                    let at_k = decode_items_spec(slice@, count as int, k as int);
                    let at_k1 = decode_items_spec(slice@, count as int, k as int + 1);
                    match at_k1 {
                        Ok(rest) => {
                            assert(at_k == Ok::<Seq<(Seq<u8>, Seq<u8>)>, CodecError>(
                                seq![rec@] + rest,
                            ));
                            assert(records_view(old_out.push(rec)) + rest
                                =~= records_view(old_out) + (seq![rec@] + rest));
                        },
                        Err(_) => {},
                    }
                }
                out.push(rec);
            },
        }
        k += 1;
    }
    proof {
        assert(decode_items_spec(slice@, count as int, count as int) == Ok::<
            Seq<(Seq<u8>, Seq<u8>)>,
            CodecError,
        >(Seq::empty()));
        assert(records_view(out@) + Seq::<(Seq<u8>, Seq<u8>)>::empty()
            =~= records_view(out@));
    }
    Ok(out)
}

/// Encodes a record vector from its items.
pub fn encode_record_vector(records: &Vec<Record>) -> (r: Vec<u8>)
    requires
        vector_size(records_view(records@)) < NUMBER_LIMIT,
    ensures
        r@ == encode_vector_spec(records_view(records@)),
{
    let ghost items = records_view(records@);
    let count = records.len();
    proof {
        lemma_prefix_size_monotone(items, 0, items.len() as int);
    }
    let mut out: Vec<u8> = Vec::new();
    push_number(&mut out, count as u32);
    let mut acc: u64 = 4 + 4 * (count as u64);
    let mut i: usize = 0;
    while i < count
        invariant
            0 <= i <= count,
            count == records@.len(),
            items == records_view(records@),
            vector_size(items) < NUMBER_LIMIT,
            acc as int == item_offset(items, i as int),
            out@ == number_bytes(items.len() as int) + offsets_bytes(items, 0).subrange(
                0,
                4 * i as int,
            ),
        decreases count - i,
    {
        proof {
            lemma_prefix_size_monotone(items, i as int, items.len() as int);
        }
        push_number(&mut out, acc as u32);
        proof {
            lemma_offsets_bytes_len(items, 0);
            lemma_offsets_bytes_index(items, 0, i as int);
            assert(offsets_bytes(items, 0).subrange(0, 4 * (i as int + 1)) =~= offsets_bytes(
                items,
                0,
            ).subrange(0, 4 * i as int) + number_bytes(item_offset(items, i as int)));
            assert(out@ =~= number_bytes(items.len() as int) + offsets_bytes(items, 0).subrange(
                0,
                4 * (i as int + 1),
            ));
        }
        let rec = &records[i];
        proof {
            assert(items[i as int] == rec@);
            lemma_prefix_size_monotone(items, i as int + 1, items.len() as int);
        }
        acc = acc + 8 + (rec.key.len() as u64) + (rec.value.len() as u64);
        i += 1;
    }
    proof {
        lemma_offsets_bytes_len(items, 0);
        assert(offsets_bytes(items, 0).subrange(0, 4 * count as int) =~= offsets_bytes(items, 0));
    }
    let mut k: usize = 0;
    while k < count
        invariant
            0 <= k <= count,
            count == records@.len(),
            items == records_view(records@),
            vector_size(items) < NUMBER_LIMIT,
            out@ == number_bytes(items.len() as int) + offsets_bytes(items, 0) + records_bytes(
                items,
                0,
            ).subrange(0, prefix_size(items, k as int)),
        decreases count - k,
    {
        let rec = &records[k];
        proof {
            assert(items[k as int] == rec@);
            lemma_prefix_size_monotone(items, 0, k as int);
            lemma_prefix_size_monotone(items, k as int + 1, items.len() as int);
        }
        let enc = encode_record(rec.key.as_slice(), rec.value.as_slice());
        push_slice(&mut out, enc.as_slice());
        proof {
            lemma_records_bytes_len(items, 0);
            lemma_records_bytes_index(items, 0, k as int);
            assert(records_bytes(items, 0).subrange(0, prefix_size(items, k as int + 1))
                =~= records_bytes(items, 0).subrange(0, prefix_size(items, k as int))
                + encode_record_spec(items[k as int]));
            assert(out@ =~= number_bytes(items.len() as int) + offsets_bytes(items, 0)
                + records_bytes(items, 0).subrange(0, prefix_size(items, k as int + 1)));
        }
        k += 1;
    }
    proof {
        lemma_records_bytes_len(items, 0);
        assert(records_bytes(items, 0).subrange(0, prefix_size(items, count as int))
            =~= records_bytes(items, 0));
    }
    out
}

} // verus!
