//! Checks on the inputs of the vector operations, with their practical
//! ceilings.

use vstd::prelude::*;
use vstd::string::*;

use crate::model::{is_invalid, VectorError};

verus! {

broadcast use vstd::string::group_string_axioms;

/// Longest namespace, index, partition or id, in bytes.
pub const MAX_SEGMENT_BYTES: usize = 512;
/// Most records in one upsert.
pub const MAX_RECORDS_PER_UPSERT: usize = 128;
/// Most dimensions of a vector.
pub const MAX_VECTOR_DIMENSIONS: usize = 4096;
/// Longest metadata of a record, in bytes of JSON.
pub const MAX_METADATA_BYTES: usize = 16384;
/// Most results of a query.
pub const MAX_QUERY_RESULTS: usize = 100;
/// Most candidates that one approximate search may gather.
pub const MAX_ANN_CANDIDATES: usize = 10000;

/// Whether a character has the Unicode White_Space property.
pub open spec fn spec_is_whitespace(c: char) -> bool {
    ||| ('\u{9}' <= c && c <= '\u{d}')
    ||| c == ' '
    ||| c == '\u{85}'
    ||| c == '\u{a0}'
    ||| c == '\u{1680}'
    ||| ('\u{2000}' <= c && c <= '\u{200a}')
    ||| c == '\u{2028}'
    ||| c == '\u{2029}'
    ||| c == '\u{202f}'
    ||| c == '\u{205f}'
    ||| c == '\u{3000}'
}

/// Whether `c` has the Unicode White_Space property, as `char::is_whitespace`
/// decides it.
fn char_is_whitespace(c: char) -> (r: bool)
    ensures
        r == spec_is_whitespace(c),
{
    ('\u{9}' <= c && c <= '\u{d}') || c == ' ' || c == '\u{85}' || c == '\u{a0}' || c == '\u{1680}'
        || ('\u{2000}' <= c && c <= '\u{200a}') || c == '\u{2028}' || c == '\u{2029}' || c
        == '\u{202f}' || c == '\u{205f}' || c == '\u{3000}'
}

/// A segment is refused when it is blank (nothing but white space), holds a
/// `/`, or is longer than the ceiling in bytes of UTF-8.
pub open spec fn segment_refused(value: Seq<char>) -> bool {
    ||| (forall|i: int| 0 <= i < value.len() ==> spec_is_whitespace(#[trigger] value[i]))
    ||| value.contains('/')
    ||| utf8_len(value) > MAX_SEGMENT_BYTES
}

/// The length in bytes of the UTF-8 encoding of `s`, as `str::len` gives it.
pub open spec fn utf8_len(s: Seq<char>) -> usize {
    vstd::utf8::encode_utf8(s).len() as usize
}

/// The message of a refused segment.
pub open spec fn segment_message(field: Seq<char>) -> Seq<char> {
    field + " cannot be empty, contain /, or exceed 512 bytes"@
}

/// Whether every character of `value` is white space, and whether it holds a `/`.
fn scan_segment(value: &str) -> (r: (bool, bool))
    ensures
        r.0 == (forall|i: int| 0 <= i < value@.len() ==> spec_is_whitespace(#[trigger] value@[i])),
        r.1 == value@.contains('/'),
{
    let n = value.unicode_len();
    let mut blank = true;
    let mut slash = false;
    let mut i: usize = 0;
    while i < n
        invariant
            n == value@.len(),
            i <= n,
            blank == (forall|j: int| 0 <= j < i ==> spec_is_whitespace(#[trigger] value@[j])),
            slash == (exists|j: int| 0 <= j < i && #[trigger] value@[j] == '/'),
        decreases n - i,
    {
        let c = value.get_char(i);
        if !char_is_whitespace(c) {
            blank = false;
        }
        if c == '/' {
            slash = true;
        }
        i = i + 1;
    }
    (blank, slash)
}

/// Checks a namespace, index, partition or id; `field` names it in the error.
pub fn validate_segment(value: &str, field: &str) -> (r: Result<(), VectorError>)
    ensures
        r is Ok <==> !segment_refused(value@),
        r is Err ==> is_invalid(r->Err_0, segment_message(field@)),
{
    let (blank, slash) = scan_segment(value);
    if blank || slash || value.len() > MAX_SEGMENT_BYTES {
        let mut msg = String::from_str(field);
        msg.append(" cannot be empty, contain /, or exceed 512 bytes");
        return Err(VectorError::Invalid(msg));
    }
    Ok(())
}

/// Checks the three segments of a collection, in order.
pub fn validate_scope(namespace: &str, index: &str, partition: &str) -> (r: Result<(), VectorError>)
    ensures
        r is Ok <==> !segment_refused(namespace@) && !segment_refused(index@) && !segment_refused(
            partition@,
        ),
        r is Err ==> is_invalid(
            r->Err_0,
            segment_message(
                if segment_refused(namespace@) {
                    "namespace"@
                } else if segment_refused(index@) {
                    "index"@
                } else {
                    "partition"@
                },
            ),
        ),
{
    validate_segment(namespace, "namespace")?;
    validate_segment(index, "index")?;
    validate_segment(partition, "partition")?;
    Ok(())
}

/// Checks the number of records of an upsert.
pub fn validate_upsert_len(len: usize) -> (r: Result<(), VectorError>)
    ensures
        r is Ok <==> 1 <= len <= MAX_RECORDS_PER_UPSERT,
        r is Err ==> is_invalid(r->Err_0, "upsert must contain 1 to 128 records"@),
{
    if len == 0 || len > MAX_RECORDS_PER_UPSERT {
        return Err(VectorError::Invalid(String::from_str("upsert must contain 1 to 128 records")));
    }
    Ok(())
}

/// Whether the 32-bit floating-point number with these bits is finite: its
/// exponent bits are not all ones.
pub open spec fn spec_bits_finite(bits: u32) -> bool {
    (bits >> 23u32) & 0xffu32 != 0xffu32
}

/// Finiteness is a property of the exponent field alone: a value is finite
/// exactly when its exponent bits (mask 0x7f80_0000) are not all ones,
/// whatever its sign and mantissa; so a number and its negation (the same
/// bits with the sign bit flipped) are finite together. Zeros, subnormals
/// and every normal number of either sign are finite; infinities and NaNs
/// are not.
pub proof fn lemma_bits_finite(bits: u32)
    ensures
        spec_bits_finite(bits) <==> (bits & 0x7f80_0000u32) != 0x7f80_0000u32,
        spec_bits_finite(bits) == spec_bits_finite(bits ^ 0x8000_0000u32),
        spec_bits_finite(bits) == spec_bits_finite(bits & 0x7f80_0000u32),
        (bits & 0x7fff_ffffu32) < 0x7f80_0000u32 ==> spec_bits_finite(bits),
        (bits & 0x7fff_ffffu32) >= 0x7f80_0000u32 ==> !spec_bits_finite(bits),
{
    assert(((bits >> 23u32) & 0xffu32 != 0xffu32) <==> (bits & 0x7f80_0000u32) != 0x7f80_0000u32) by (bit_vector);
    assert((((bits ^ 0x8000_0000u32) >> 23u32) & 0xffu32 != 0xffu32) <==> (bits & 0x7f80_0000u32)
        != 0x7f80_0000u32) by (bit_vector);
    assert((((bits & 0x7f80_0000u32) >> 23u32) & 0xffu32 != 0xffu32) <==> (bits & 0x7f80_0000u32)
        != 0x7f80_0000u32) by (bit_vector);
    assert((bits & 0x7fff_ffffu32) < 0x7f80_0000u32 ==> (bits & 0x7f80_0000u32) != 0x7f80_0000u32) by (bit_vector);
    assert((bits & 0x7fff_ffffu32) >= 0x7f80_0000u32 ==> (bits & 0x7f80_0000u32) == 0x7f80_0000u32) by (bit_vector);
}

/// Whether the 32-bit floating-point number with these bits is finite.
pub fn bits_finite(bits: u32) -> (r: bool)
    ensures
        r == spec_bits_finite(bits),
{
    (bits >> 23u32) & 0xffu32 != 0xffu32
}

/// Checks a query's minimum score, given by the bits of its 32-bit
/// floating-point value: absent, or finite.
pub fn validate_min_score(bits: Option<u32>) -> (r: Result<(), VectorError>)
    ensures
        r is Ok <==> (bits is None || spec_bits_finite(bits->0)),
        r is Err ==> is_invalid(r->Err_0, "min_score must be a finite number"@),
{
    match bits {
        Some(b) => {
            if !bits_finite(b) {
                return Err(VectorError::Invalid(String::from_str("min_score must be a finite number")));
            }
        },
        None => {},
    }
    Ok(())
}

/// Checks a vector, given by the bits of its 32-bit floating-point values:
/// 1 to 4096 dimensions, every value finite.
pub fn validate_values(values: &[u32]) -> (r: Result<(), VectorError>)
    ensures
        r is Ok <==> 1 <= values@.len() <= MAX_VECTOR_DIMENSIONS && forall|i: int|
            0 <= i < values@.len() ==> spec_bits_finite(#[trigger] values@[i]),
        r is Err && !(1 <= values@.len() <= MAX_VECTOR_DIMENSIONS) ==> is_invalid(
            r->Err_0,
            "vector must contain 1 to 4096 dimensions"@,
        ),
        r is Err && 1 <= values@.len() <= MAX_VECTOR_DIMENSIONS ==> is_invalid(
            r->Err_0,
            "vector values must be finite numbers"@,
        ),
{
    if values.len() == 0 || values.len() > MAX_VECTOR_DIMENSIONS {
        return Err(
            VectorError::Invalid(String::from_str("vector must contain 1 to 4096 dimensions")),
        );
    }
    let mut i: usize = 0;
    while i < values.len()
        invariant
            1 <= values@.len() <= MAX_VECTOR_DIMENSIONS,
            i <= values@.len(),
            forall|j: int| 0 <= j < i ==> spec_bits_finite(#[trigger] values@[j]),
        decreases values@.len() - i,
    {
        if !bits_finite(values[i]) {
            return Err(
                VectorError::Invalid(String::from_str("vector values must be finite numbers")),
            );
        }
        i = i + 1;
    }
    Ok(())
}

/// Checks the size of metadata, given as its JSON text.
pub fn validate_metadata(encoded: &[u8]) -> (r: Result<(), VectorError>)
    ensures
        r is Ok <==> encoded@.len() <= MAX_METADATA_BYTES,
        r is Err ==> is_invalid(r->Err_0, "metadata cannot exceed 16384 bytes"@),
{
    if encoded.len() > MAX_METADATA_BYTES {
        return Err(VectorError::Invalid(String::from_str("metadata cannot exceed 16384 bytes")));
    }
    Ok(())
}

/// The number of results of a query: `top_k`, 10 when absent.
pub open spec fn spec_query_limit(top_k: Option<usize>) -> usize {
    match top_k {
        Some(k) => k,
        None => 10,
    }
}

/// A query returns at most the number of results it asks for: a given
/// `top_k` is the limit itself, and only an absent one defaults to 10.
pub proof fn lemma_query_limit(k: usize)
    ensures
        spec_query_limit(Some(k)) == k,
        spec_query_limit(None) == 10,
        1 <= k <= MAX_QUERY_RESULTS ==> 1 <= spec_query_limit(Some(k)) <= MAX_QUERY_RESULTS,
{
}

/// The number of results of a query, which must be 1 to 100.
pub fn query_limit(top_k: Option<usize>) -> (r: Result<usize, VectorError>)
    ensures
        r is Ok <==> 1 <= spec_query_limit(top_k) <= MAX_QUERY_RESULTS,
        r is Ok ==> r->Ok_0 == spec_query_limit(top_k),
        r is Err ==> is_invalid(r->Err_0, "top_k must be between 1 and 100"@),
{
    let value = match top_k {
        Some(k) => k,
        None => 10,
    };
    if value == 0 || value > MAX_QUERY_RESULTS {
        return Err(VectorError::Invalid(String::from_str("top_k must be between 1 and 100")));
    }
    Ok(value)
}

/// The number of candidates an approximate search gathers: as asked, else
/// eight times `top_k` and at least 64.
pub open spec fn spec_ann_candidate_limit(candidate_limit: Option<usize>, top_k: usize) -> int {
    match candidate_limit {
        Some(c) => c as int,
        None => if top_k * 8 >= 64 {
            top_k * 8
        } else {
            64
        },
    }
}

/// The number of candidates an approximate search gathers, which must be
/// `top_k` to 10000.
pub fn ann_candidate_limit(candidate_limit: Option<usize>, top_k: usize) -> (r: Result<
    usize,
    VectorError,
>)
    requires
        top_k * 8 <= usize::MAX,
    ensures
        r is Ok <==> top_k <= spec_ann_candidate_limit(candidate_limit, top_k) <= MAX_ANN_CANDIDATES,
        r is Ok ==> r->Ok_0 == spec_ann_candidate_limit(candidate_limit, top_k),
        r is Err ==> is_invalid(r->Err_0, "candidate_limit must be between top_k and 10000"@),
{
    let value = match candidate_limit {
        Some(c) => c,
        None => if top_k * 8 >= 64 {
            top_k * 8
        } else {
            64
        },
    };
    if value < top_k || value > MAX_ANN_CANDIDATES {
        return Err(
            VectorError::Invalid(
                String::from_str("candidate_limit must be between top_k and 10000"),
            ),
        );
    }
    Ok(value)
}

/// The breadth of an approximate search: as asked, else the candidate limit
/// and at least 64.
pub open spec fn spec_ann_ef_search(ef_search: Option<usize>, candidate_limit: usize) -> usize {
    match ef_search {
        Some(e) => e,
        None => if candidate_limit >= 64 {
            candidate_limit
        } else {
            64
        },
    }
}

/// The breadth of an approximate search, which must be the candidate limit
/// to 10000.
pub fn ann_ef_search(ef_search: Option<usize>, candidate_limit: usize) -> (r: Result<usize, VectorError>)
    ensures
        r is Ok <==> candidate_limit <= spec_ann_ef_search(ef_search, candidate_limit)
            <= MAX_ANN_CANDIDATES,
        r is Ok ==> r->Ok_0 == spec_ann_ef_search(ef_search, candidate_limit),
        r is Err ==> is_invalid(r->Err_0, "ef_search must be between candidate_limit and 10000"@),
{
    let value = match ef_search {
        Some(e) => e,
        None => if candidate_limit >= 64 {
            candidate_limit
        } else {
            64
        },
    };
    if value < candidate_limit || value > MAX_ANN_CANDIDATES {
        return Err(
            VectorError::Invalid(
                String::from_str("ef_search must be between candidate_limit and 10000"),
            ),
        );
    }
    Ok(value)
}

} // verus!
