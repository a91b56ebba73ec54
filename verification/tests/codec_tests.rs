use feox_vector::codec::{
    decode_ann_record, decode_header, decode_record, encode_record, read_u32, read_u64,
    HEADER_BYTES,
};
use feox_vector::VectorError;

fn message<T>(result: Result<T, VectorError>) -> String {
    match result {
        Err(VectorError::Invalid(message)) => message,
        Err(_) => panic!("expected an invalid-input error, got another error"),
        Ok(_) => panic!("expected an invalid-input error, got a value"),
    }
}

fn bits(values: &[f32]) -> Vec<u32> {
    values.iter().map(|v| v.to_bits()).collect()
}

#[test]
fn encodes_header_values_and_metadata_little_endian() {
    let values = bits(&[1.0, -2.5]);
    let bytes = encode_record(&values, b"{\"a\":1}", 7, 9).ok().unwrap();
    assert_eq!(&bytes[..4], b"FXV1");
    assert_eq!(&bytes[4..6], &2u16.to_le_bytes());
    assert_eq!(&bytes[6..8], &[0u8, 0u8]);
    assert_eq!(&bytes[8..16], &7u64.to_le_bytes());
    assert_eq!(&bytes[16..24], &9u64.to_le_bytes());
    assert_eq!(&bytes[24..28], &7u32.to_le_bytes());
    assert_eq!(&bytes[28..32], &1.0f32.to_le_bytes());
    assert_eq!(&bytes[32..36], &(-2.5f32).to_le_bytes());
    assert_eq!(&bytes[36..], b"{\"a\":1}");
    assert_eq!(bytes.len(), HEADER_BYTES + 8 + 7);
}

#[test]
fn decode_gives_back_what_was_encoded() {
    let values = bits(&[0.25, -1.0, 3.5]);
    let bytes = encode_record(&values, b"{\"tag\":\"x\"}", 11, 12).ok().unwrap();
    let record = decode_record("vector/ns/idx/part/record/doc-1", &bytes)
        .ok()
        .unwrap();
    assert_eq!(record.id, "doc-1");
    assert_eq!(record.values, values);
    assert_eq!(record.metadata, b"{\"tag\":\"x\"}".to_vec());
    assert_eq!(record.created_at_ms, 11);
    assert_eq!(record.updated_at_ms, 12);
}

#[test]
fn header_locates_values_and_metadata() {
    let bytes = encode_record(&bits(&[1.0, 2.0]), b"{}", 3, 4).ok().unwrap();
    let header = decode_header(&bytes).ok().unwrap();
    assert_eq!(header.dimensions, 2);
    assert_eq!(header.created_at_ms, 3);
    assert_eq!(header.updated_at_ms, 4);
    assert_eq!(header.values_start, 28);
    assert_eq!(header.metadata_start, 36);
}

#[test]
fn decode_refuses_short_foreign_and_mis_sized_records() {
    assert_eq!(
        message(decode_header(b"FXV1")),
        "stored vector record has an unsupported encoding"
    );
    let mut foreign = encode_record(&bits(&[1.0]), b"{}", 0, 0).ok().unwrap();
    foreign[0] = b'X';
    assert_eq!(
        message(decode_record("k", &foreign)),
        "stored vector record has an unsupported encoding"
    );
    let mut long = encode_record(&bits(&[1.0]), b"{}", 0, 0).ok().unwrap();
    long.push(0);
    assert_eq!(
        message(decode_record("k", &long)),
        "stored vector record has an invalid length"
    );
    let mut short = encode_record(&bits(&[1.0]), b"{}", 0, 0).ok().unwrap();
    short.pop();
    assert_eq!(
        message(decode_header(&short)),
        "stored vector record has an invalid length"
    );
}

#[test]
fn reads_little_endian_fields_and_refuses_missing_ones() {
    let bytes = [1u8, 0, 0, 0, 0, 0, 0, 2, 9];
    assert_eq!(read_u64(&bytes, 0).ok().unwrap(), 0x0200_0000_0000_0001);
    assert_eq!(read_u32(&bytes, 4).ok().unwrap(), 0x0200_0000);
    assert_eq!(
        message(read_u64(&bytes, 2)),
        "stored vector record is missing u64 field"
    );
    assert_eq!(
        message(read_u32(&bytes, 6)),
        "stored vector record is missing u32 field"
    );
}

#[test]
fn ann_decode_skips_other_dimensions() {
    let bytes = encode_record(&bits(&[1.0, 0.0]), b"{\"k\":true}", 1, 2)
        .ok()
        .unwrap();
    assert!(decode_ann_record("p/record/a", &bytes, 3)
        .ok()
        .unwrap()
        .is_none());
    let record = decode_ann_record("p/record/a", &bytes, 2)
        .ok()
        .unwrap()
        .unwrap();
    assert_eq!(record.id, "a");
    assert_eq!(record.values, bits(&[1.0, 0.0]));
    assert_eq!(record.metadata, b"{\"k\":true}".to_vec());
}

#[test]
fn metadata_must_be_a_json_object() {
    let bad = encode_record(&bits(&[1.0]), b"[1,2]", 0, 0).ok().unwrap();
    assert!(matches!(decode_record("k", &bad), Err(VectorError::Json(_))));
    assert!(matches!(
        decode_ann_record("k", &bad, 1),
        Err(VectorError::Json(_))
    ));
    assert!(decode_ann_record("k", &bad, 2).ok().unwrap().is_none());
    let torn = encode_record(&bits(&[1.0]), b"{\"a\":", 0, 0).ok().unwrap();
    assert!(matches!(decode_record("k", &torn), Err(VectorError::Json(_))));
    let empty = encode_record(&bits(&[1.0]), b"{}", 0, 0).ok().unwrap();
    assert_eq!(
        decode_ann_record("a/b", &empty, 1)
            .ok()
            .unwrap()
            .unwrap()
            .metadata,
        b"{}".to_vec()
    );
    assert!(matches!(
        decode_record("k", b"FXV1"),
        Err(VectorError::Invalid(_))
    ));
}
