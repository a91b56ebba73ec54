//! The binary format of a stored record: the magic `FXV1`, the number of
//! dimensions (u16), two reserved bytes, the creation and update times in
//! milliseconds (u64 each), the length of the metadata (u32), every value as
//! the four bytes of a 32-bit float, then the metadata as JSON text. Every
//! integer is little-endian.
//!
//! A vector's values are held here as the bits of their 32-bit floats.

use vstd::bytes::*;
use vstd::prelude::*;
use vstd::slice::*;

use crate::keys::{record_id_from_key, spec_record_id_from_key};
use crate::json::{check_json_object, json_object_text};
use crate::model::{is_invalid, VectorError};

verus! {

/// Length of the fixed header.
pub const HEADER_BYTES: usize = 28;

/// The four bytes that open every record: `FXV1`.
pub open spec fn magic() -> Seq<u8> {
    seq![0x46u8, 0x58u8, 0x56u8, 0x31u8]
}

/// The values, four little-endian bytes each.
pub open spec fn values_le(values: Seq<u32>) -> Seq<u8>
    decreases values.len(),
{
    if values.len() == 0 {
        Seq::empty()
    } else {
        values_le(values.drop_last()) + spec_u32_to_le_bytes(values.last())
    }
}

/// The bytes of the header of a record.
pub open spec fn spec_header(dimensions: u16, created_at_ms: u64, updated_at_ms: u64, metadata_len: u32) -> Seq<u8> {
    magic() + spec_u16_to_le_bytes(dimensions) + spec_u16_to_le_bytes(0u16) + spec_u64_to_le_bytes(
        created_at_ms,
    ) + spec_u64_to_le_bytes(updated_at_ms) + spec_u32_to_le_bytes(metadata_len)
}

/// The bytes of a record. The dimension field holds the number of values
/// modulo 65536.
pub open spec fn spec_encode_record(
    values: Seq<u32>,
    metadata: Seq<u8>,
    created_at_ms: u64,
    updated_at_ms: u64,
) -> Seq<u8> {
    spec_header((values.len() % 65536) as u16, created_at_ms, updated_at_ms, metadata.len() as u32)
        + values_le(values) + metadata
}

/// Whether the bytes open with a whole header that starts with the magic.
pub open spec fn header_ok(b: Seq<u8>) -> bool {
    b.len() >= HEADER_BYTES && b.subrange(0, 4) == magic()
}

/// The number of dimensions that a header gives.
pub open spec fn header_dimensions(b: Seq<u8>) -> u16 {
    spec_u16_from_le_bytes(b.subrange(4, 6))
}

/// The creation time that a header gives.
pub open spec fn header_created(b: Seq<u8>) -> u64 {
    spec_u64_from_le_bytes(b.subrange(8, 16))
}

/// The update time that a header gives.
pub open spec fn header_updated(b: Seq<u8>) -> u64 {
    spec_u64_from_le_bytes(b.subrange(16, 24))
}

/// The metadata length that a header gives.
pub open spec fn header_metadata_len(b: Seq<u8>) -> u32 {
    spec_u32_from_le_bytes(b.subrange(24, 28))
}

/// Where the metadata starts, after the header and the values.
pub open spec fn metadata_start(b: Seq<u8>) -> int {
    HEADER_BYTES + 4 * header_dimensions(b)
}

/// The length that the header announces for the whole record.
pub open spec fn announced_len(b: Seq<u8>) -> int {
    metadata_start(b) + header_metadata_len(b)
}

/// The bytes are a whole record: a header, then as many values and as many
/// bytes of metadata as it announces, and nothing more.
pub open spec fn well_framed(b: Seq<u8>) -> bool {
    header_ok(b) && b.len() == announced_len(b)
}

/// The values of a framed record.
pub open spec fn framed_values(b: Seq<u8>) -> Seq<u32> {
    Seq::new(
        header_dimensions(b) as nat,
        |i: int| spec_u32_from_le_bytes(b.subrange(HEADER_BYTES + 4 * i, HEADER_BYTES + 4 * i + 4)),
    )
}

/// The metadata of a framed record.
pub open spec fn framed_metadata(b: Seq<u8>) -> Seq<u8> {
    b.subrange(metadata_start(b), b.len() as int)
}

/// The fields of a record's header, and where its parts start.
pub struct RecordHeader {
    pub dimensions: usize,
    pub created_at_ms: u64,
    pub updated_at_ms: u64,
    pub values_start: usize,
    pub metadata_start: usize,
}

/// A record as read back from its key and bytes. Its metadata is still the
/// JSON text that was stored.
pub struct DecodedRecord {
    pub id: String,
    pub values: Vec<u32>,
    pub metadata: Vec<u8>,
    pub created_at_ms: u64,
    pub updated_at_ms: u64,
}

/// A record as the approximate index takes it.
pub struct VectorAnnRecord {
    pub id: String,
    pub values: Vec<u32>,
    pub metadata: Vec<u8>,
}

/// Encodes a record. Fails when the metadata is longer than a u32 can count.
pub fn encode_record(values: &[u32], metadata: &[u8], created_at_ms: u64, updated_at_ms: u64) -> (r:
    Result<Vec<u8>, VectorError>)
    requires
        HEADER_BYTES + 4 * values@.len() + metadata@.len() <= usize::MAX,
    ensures
        r is Ok <==> metadata@.len() <= u32::MAX,
        r is Ok ==> r->Ok_0@ == spec_encode_record(values@, metadata@, created_at_ms, updated_at_ms),
        r is Err ==> is_invalid(r->Err_0, "metadata is too large to encode"@),
{
    if metadata.len() > 0xffff_ffffusize {
        return Err(VectorError::Invalid(String::from_str("metadata is too large to encode")));
    }
    let mut bytes: Vec<u8> = Vec::new();
    bytes.push(0x46u8);
    bytes.push(0x58u8);
    bytes.push(0x56u8);
    bytes.push(0x31u8);
    let dims = (values.len() % 65536) as u16;
    let mut part = u16_to_le_bytes(dims);
    bytes.append(&mut part);
    let mut part = u16_to_le_bytes(0u16);
    bytes.append(&mut part);
    let mut part = u64_to_le_bytes(created_at_ms);
    bytes.append(&mut part);
    let mut part = u64_to_le_bytes(updated_at_ms);
    bytes.append(&mut part);
    let mut part = u32_to_le_bytes(metadata.len() as u32);
    bytes.append(&mut part);
    let ghost header = bytes@;
    assert(header =~= spec_header(dims, created_at_ms, updated_at_ms, metadata@.len() as u32));
    let mut i: usize = 0;
    while i < values.len()
        invariant
            i <= values@.len(),
            header.len() == HEADER_BYTES,
            bytes@ == header + values_le(values@.take(i as int)),
            HEADER_BYTES + 4 * values@.len() + metadata@.len() <= usize::MAX,
        decreases values@.len() - i,
    {
        proof {
            lemma_values_le_len(values@.take(i as int));
            assert(values@.take(i + 1).drop_last() =~= values@.take(i as int));
        }
        let mut part = u32_to_le_bytes(values[i]);
        bytes.append(&mut part);
        i = i + 1;
    }
    assert(values@.take(values@.len() as int) =~= values@);
    proof {
        lemma_values_le_len(values@);
    }
    let mut i: usize = 0;
    let ghost framed = bytes@;
    while i < metadata.len()
        invariant
            i <= metadata@.len(),
            bytes@ == framed + metadata@.take(i as int),
            framed.len() + metadata@.len() <= usize::MAX,
        decreases metadata@.len() - i,
    {
        bytes.push(metadata[i]);
        assert(metadata@.take(i + 1) =~= metadata@.take(i as int).push(metadata@[i as int]));
        i = i + 1;
    }
    proof {
        lemma_values_le_len(values@);
    }
    assert(metadata@.take(metadata@.len() as int) =~= metadata@);
    Ok(bytes)
}

/// `values_le` gives four bytes per value.
pub proof fn lemma_values_le_len(values: Seq<u32>)
    ensures
        values_le(values).len() == 4 * values.len(),
    decreases values.len(),
{
    lemma_auto_spec_u32_to_from_le_bytes();
    if values.len() > 0 {
        lemma_values_le_len(values.drop_last());
    }
}

/// The four bytes of value `i` in `values_le(values)` read back as that value.
pub proof fn lemma_values_le_index(values: Seq<u32>, i: int)
    requires
        0 <= i < values.len(),
    ensures
        values_le(values).subrange(4 * i, 4 * i + 4) == spec_u32_to_le_bytes(values[i]),
        spec_u32_from_le_bytes(values_le(values).subrange(4 * i, 4 * i + 4)) == values[i],
    decreases values.len(),
{
    lemma_auto_spec_u32_to_from_le_bytes();
    let d = values.drop_last();
    lemma_values_le_len(d);
    if i < values.len() - 1 {
        lemma_values_le_index(d, i);
        assert(values_le(values).subrange(4 * i, 4 * i + 4) =~= values_le(d).subrange(4 * i, 4 * i + 4));
    } else {
        assert(values_le(values).subrange(4 * i, 4 * i + 4) =~= spec_u32_to_le_bytes(values.last()));
    }
}

/// A record reads back as it was written: for fewer than 65536 values and
/// metadata that a u32 can count, the encoded bytes are a whole record whose
/// header gives the number of values and both times, and whose values and
/// metadata are those encoded.
pub proof fn lemma_decode_encode(values: Seq<u32>, metadata: Seq<u8>, created_at_ms: u64, updated_at_ms: u64)
    requires
        values.len() < 65536,
        metadata.len() <= u32::MAX,
    ensures
        ({
            let b = spec_encode_record(values, metadata, created_at_ms, updated_at_ms);
            &&& well_framed(b)
            &&& header_dimensions(b) == values.len()
            &&& header_created(b) == created_at_ms
            &&& header_updated(b) == updated_at_ms
            &&& framed_values(b) == values
            &&& framed_metadata(b) == metadata
        }),
{
    lemma_auto_spec_u16_to_from_le_bytes();
    lemma_auto_spec_u32_to_from_le_bytes();
    lemma_auto_spec_u64_to_from_le_bytes();
    lemma_values_le_len(values);
    let n = values.len();
    let dims = (n % 65536) as u16;
    let h = spec_header(dims, created_at_ms, updated_at_ms, metadata.len() as u32);
    let vb = values_le(values);
    let b = spec_encode_record(values, metadata, created_at_ms, updated_at_ms);
    assert(h.len() == HEADER_BYTES);
    assert(b =~= h + vb + metadata);
    assert(b.subrange(0, 4) =~= magic());
    assert(b.subrange(4, 6) =~= spec_u16_to_le_bytes(dims));
    assert(b.subrange(8, 16) =~= spec_u64_to_le_bytes(created_at_ms));
    assert(b.subrange(16, 24) =~= spec_u64_to_le_bytes(updated_at_ms));
    assert(b.subrange(24, 28) =~= spec_u32_to_le_bytes(metadata.len() as u32));
    assert(header_dimensions(b) == dims);
    assert(dims == n);
    assert(header_metadata_len(b) == metadata.len());
    assert forall|i: int| 0 <= i < n implies #[trigger] framed_values(b)[i] == values[i] by {
        lemma_values_le_index(values, i);
        assert(b.subrange(HEADER_BYTES + 4 * i, HEADER_BYTES + 4 * i + 4) =~= vb.subrange(
            4 * i,
            4 * i + 4,
        ));
    }
    assert(framed_values(b) =~= values);
    assert(framed_metadata(b) =~= metadata);
}

/// Reads the little-endian u64 at `offset`.
pub fn read_u64(bytes: &[u8], offset: usize) -> (r: Result<u64, VectorError>)
    ensures
        r is Ok <==> offset + 8 <= bytes@.len(),
        r is Ok ==> r->Ok_0 == spec_u64_from_le_bytes(
            bytes@.subrange(offset as int, offset + 8),
        ),
        r is Err ==> is_invalid(r->Err_0, "stored vector record is missing u64 field"@),
{
    if offset > bytes.len() || bytes.len() - offset < 8 {
        return Err(
            VectorError::Invalid(String::from_str("stored vector record is missing u64 field")),
        );
    }
    Ok(u64_from_le_bytes(slice_subrange(bytes, offset, offset + 8)))
}

/// Reads the little-endian u32 at `offset`.
pub fn read_u32(bytes: &[u8], offset: usize) -> (r: Result<u32, VectorError>)
    ensures
        r is Ok <==> offset + 4 <= bytes@.len(),
        r is Ok ==> r->Ok_0 == spec_u32_from_le_bytes(
            bytes@.subrange(offset as int, offset + 4),
        ),
        r is Err ==> is_invalid(r->Err_0, "stored vector record is missing u32 field"@),
{
    if offset > bytes.len() || bytes.len() - offset < 4 {
        return Err(
            VectorError::Invalid(String::from_str("stored vector record is missing u32 field")),
        );
    }
    Ok(u32_from_le_bytes(slice_subrange(bytes, offset, offset + 4)))
}

/// Reads and checks the header of a stored record.
pub fn decode_header(bytes: &[u8]) -> (r: Result<RecordHeader, VectorError>)
    ensures
        r is Ok <==> well_framed(bytes@),
        r is Ok ==> {
            let h = r->Ok_0;
            &&& h.dimensions == header_dimensions(bytes@)
            &&& h.created_at_ms == header_created(bytes@)
            &&& h.updated_at_ms == header_updated(bytes@)
            &&& h.values_start == HEADER_BYTES
            &&& h.metadata_start == metadata_start(bytes@)
        },
        !header_ok(bytes@) ==> is_invalid(
            r->Err_0,
            "stored vector record has an unsupported encoding"@,
        ),
        header_ok(bytes@) && announced_len(bytes@) > usize::MAX ==> is_invalid(
            r->Err_0,
            "stored vector metadata overflows"@,
        ),
        header_ok(bytes@) && announced_len(bytes@) <= usize::MAX && bytes@.len() != announced_len(
            bytes@,
        ) ==> is_invalid(r->Err_0, "stored vector record has an invalid length"@),
{
    if bytes.len() < HEADER_BYTES || bytes[0] != 0x46u8 || bytes[1] != 0x58u8 || bytes[2] != 0x56u8
        || bytes[3] != 0x31u8 {
        proof {
            if bytes@.len() >= HEADER_BYTES && bytes@.subrange(0, 4) == magic() {
                assert(bytes@[0] == bytes@.subrange(0, 4)[0]);
                assert(bytes@[1] == bytes@.subrange(0, 4)[1]);
                assert(bytes@[2] == bytes@.subrange(0, 4)[2]);
                assert(bytes@[3] == bytes@.subrange(0, 4)[3]);
            }
        }
        return Err(
            VectorError::Invalid(
                String::from_str("stored vector record has an unsupported encoding"),
            ),
        );
    }
    assert(bytes@.subrange(0, 4) =~= magic());
    let dimensions = u16_from_le_bytes(slice_subrange(bytes, 4, 6)) as usize;
    let created_at_ms = read_u64(bytes, 8)?;
    let updated_at_ms = read_u64(bytes, 16)?;
    let metadata_len = read_u32(bytes, 24)? as usize;
    let values_start = HEADER_BYTES;
    let values_len = dimensions * 4;
    let metadata_start = values_start + values_len;
    if metadata_len > usize::MAX - metadata_start {
        return Err(VectorError::Invalid(String::from_str("stored vector metadata overflows")));
    }
    let total_len = metadata_start + metadata_len;
    if bytes.len() != total_len {
        return Err(
            VectorError::Invalid(String::from_str("stored vector record has an invalid length")),
        );
    }
    Ok(RecordHeader { dimensions, created_at_ms, updated_at_ms, values_start, metadata_start })
}

/// Reads the values of a framed record.
fn decode_values(bytes: &[u8], header: &RecordHeader) -> (r: Vec<u32>)
    requires
        well_framed(bytes@),
        header.dimensions == header_dimensions(bytes@),
        header.values_start == HEADER_BYTES,
        header.metadata_start == metadata_start(bytes@),
    ensures
        r@ == framed_values(bytes@),
{
    let mut values: Vec<u32> = Vec::new();
    let mut i: usize = 0;
    while i < header.dimensions
        invariant
            well_framed(bytes@),
            header.dimensions == header_dimensions(bytes@),
            header.values_start == HEADER_BYTES,
            i <= header.dimensions,
            values@ =~= framed_values(bytes@).take(i as int),
        decreases header.dimensions - i,
    {
        let at = header.values_start + 4 * i;
        let v = u32_from_le_bytes(slice_subrange(bytes, at, at + 4));
        values.push(v);
        i = i + 1;
    }
    values
}

/// The text of an empty JSON object, `{}`.
pub open spec fn empty_object_text() -> Seq<u8> {
    seq![0x7bu8, 0x7du8]
}

/// Checks that metadata text is a JSON object, failing with the JSON error.
pub fn check_metadata(text: &[u8]) -> (r: Result<(), VectorError>)
    ensures
        r is Ok <==> json_object_text(text@),
        r is Err ==> r->Err_0 is Json,
{
    match check_json_object(text) {
        Ok(()) => Ok(()),
        Err(e) => Err(VectorError::Json(e)),
    }
}

/// Decodes a stored record. Its id is what follows the last `/` of its key;
/// its metadata must be a JSON object.
pub fn decode_record(key: &str, bytes: &[u8]) -> (r: Result<DecodedRecord, VectorError>)
    ensures
        r is Ok <==> well_framed(bytes@) && json_object_text(framed_metadata(bytes@)),
        r is Ok ==> {
            let rec = r->Ok_0;
            &&& rec.id@ == spec_record_id_from_key(key@)
            &&& rec.values@ == framed_values(bytes@)
            &&& rec.metadata@ == framed_metadata(bytes@)
            &&& rec.created_at_ms == header_created(bytes@)
            &&& rec.updated_at_ms == header_updated(bytes@)
        },
        !well_framed(bytes@) ==> r matches Err(VectorError::Invalid(_)),
        well_framed(bytes@) && !json_object_text(framed_metadata(bytes@)) ==> r matches Err(
            VectorError::Json(_),
        ),
{
    let header = decode_header(bytes)?;
    let values = decode_values(bytes, &header);
    let metadata = slice_to_vec(slice_subrange(bytes, header.metadata_start, bytes.len()));
    check_metadata(metadata.as_slice())?;
    Ok(
        DecodedRecord {
            id: record_id_from_key(key),
            values,
            metadata,
            created_at_ms: header.created_at_ms,
            updated_at_ms: header.updated_at_ms,
        },
    )
}

/// Decodes a stored record for the approximate index; `None` when its
/// number of dimensions is not the index's. Metadata other than `{}` must
/// be a JSON object.
pub fn decode_ann_record(key: &str, bytes: &[u8], expected_dimensions: usize) -> (r: Result<
    Option<VectorAnnRecord>,
    VectorError,
>)
    ensures
        !well_framed(bytes@) ==> r matches Err(VectorError::Invalid(_)),
        well_framed(bytes@) && header_dimensions(bytes@) != expected_dimensions ==> r matches Ok(None),
        well_framed(bytes@) && header_dimensions(bytes@) == expected_dimensions ==> {
            let md = framed_metadata(bytes@);
            if md == empty_object_text() || json_object_text(md) {
                (r matches Ok(Some(rec)) && rec.id@ == spec_record_id_from_key(key@) && rec.values@
                    == framed_values(bytes@) && rec.metadata@ == md)
            } else {
                r matches Err(VectorError::Json(_))
            }
        },
{
    let header = decode_header(bytes)?;
    if header.dimensions != expected_dimensions {
        return Ok(None);
    }
    let values = decode_values(bytes, &header);
    let metadata = slice_to_vec(slice_subrange(bytes, header.metadata_start, bytes.len()));
    let is_empty_object = metadata.len() == 2 && metadata[0] == 0x7bu8 && metadata[1] == 0x7du8;
    if !is_empty_object {
        check_metadata(metadata.as_slice())?;
    }
    proof {
        if metadata@.len() == 2 && metadata@[0] == 0x7bu8 && metadata@[1] == 0x7du8 {
            assert(metadata@ =~= empty_object_text());
        }
    }
    Ok(Some(VectorAnnRecord { id: record_id_from_key(key), values, metadata }))
}

} // verus!
