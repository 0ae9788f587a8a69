//! A verified codec and validator for key/value record sets stored in the
//! data field of transaction output cells.
//!
//! The binary format is little-endian throughout and built from one 4-byte
//! unsigned "number" unit: a dynamic byte vector is a number (its length)
//! followed by that many bytes; a record is an offset table (one number per
//! field) followed by the flat bytes of its two fields; a record vector is a
//! number (the item count), one number per item (the item's byte offset from
//! the start of the vector), and the concatenated record bytes. Decoding
//! rejects any buffer whose declared sizes disagree with its actual length.
//!
//! On top of the codec sits a view layer ([`view::Data`],
//! [`view::KuaiMvpView`]) that surfaces record fields as UTF-8 text, and a
//! validator ([`validate`]) that applies the business rule for record sets:
//! the set is non-empty and its first key is the reserved primary key.

pub mod codec;
pub mod errors;
pub mod record;
pub mod text;
pub mod validate;
pub mod view;
