//! The vector operations over the key-value store: writing and deleting
//! records of a collection, reading one back, and ranking query matches.

use vstd::prelude::*;
use vstd::string::*;

use crate::codec::{check_metadata, lemma_decode_encode, decode_ann_record, empty_object_text, header_dimensions, VectorAnnRecord, decode_record, encode_record, spec_encode_record, DecodedRecord, well_framed, framed_values, framed_metadata, header_created, header_updated};
use crate::json::json_object_text;
use crate::keys::{lemma_record_id_from_key, record_key, spec_record_id_from_key, spec_record_key};
use crate::model::{is_invalid, KeyValue, StoreError, VectorDeleteInput, VectorDeleteResult, VectorError, VectorUpsertResult};
use crate::query::QUERY_SCAN_BATCH;
use crate::storage::{after_bytes, bytes_lt, key_bytes, listed_in_order, listing_of, store_key_refused, Store, StoreCall, StoreReceipt};
use crate::validation::{
    segment_message, segment_refused, spec_bits_finite, validate_metadata, validate_scope,
    validate_segment, validate_upsert_len, validate_values, MAX_METADATA_BYTES, MAX_RECORDS_PER_UPSERT,
    MAX_VECTOR_DIMENSIONS,
};

verus! {

broadcast use vstd::string::group_string_axioms;

/// The wall clock.
#[verifier::external_type_specification]
#[verifier::external_body]
pub struct ExSystemTime(std::time::SystemTime);

/// A clock reading before the Unix epoch.
#[verifier::external_type_specification]
#[verifier::external_body]
pub struct ExSystemTimeError(std::time::SystemTimeError);

/// `SystemTime::now`: the current time; it depends on the machine's clock.
#[verifier::external_body]
fn system_time_now() -> std::time::SystemTime {
    std::time::SystemTime::now()
}

/// `SystemTime::duration_since` with the Unix epoch: the time elapsed since
/// it, or an error for a time before it.
#[verifier::external_body]
fn duration_since_epoch(t: &std::time::SystemTime) -> Result<
    core::time::Duration,
    std::time::SystemTimeError,
> {
    t.duration_since(std::time::UNIX_EPOCH)
}

/// The whole milliseconds of a duration, as `Duration::as_millis` gives
/// them.
pub uninterp spec fn duration_millis(d: core::time::Duration) -> u128;

/// `Duration::as_millis`: the whole milliseconds of `d`.
#[verifier::external_body]
fn duration_as_millis(d: &core::time::Duration) -> (r: u128)
    ensures
        r == duration_millis(*d),
{
    d.as_millis()
}

/// Milliseconds as a timestamp: reduced modulo 2^64.
pub fn millis_to_u64(ms: u128) -> (r: u64)
    ensures
        r == ms % 0x1_0000_0000_0000_0000,
{
    (ms % 0x1_0000_0000_0000_0000u128) as u64
}

/// The current time in milliseconds since the Unix epoch, modulo 2^64:
/// the milliseconds of the time elapsed since the epoch, as the clock read
/// it; fails when the clock reads a time before the epoch.
pub fn now_ms() -> (r: Result<u64, VectorError>)
    ensures
        r matches Ok(t) ==> exists|d: core::time::Duration| t == #[trigger] duration_millis(d) % 0x1_0000_0000_0000_0000,
        r matches Err(e) ==> is_invalid(e, "system clock before unix epoch"@),
{
    let now = system_time_now();
    match duration_since_epoch(&now) {
        Ok(d) => {
            let ms = duration_as_millis(&d);
            Ok(millis_to_u64(ms))
        },
        Err(_) => Err(VectorError::Invalid(String::from_str("system clock before unix epoch"))),
    }
}

/// A record to write: its id, the bits of its 32-bit float values, and its
/// metadata as JSON text.
pub struct VectorUpsertRecord {
    pub id: String,
    pub values: Vec<u32>,
    pub metadata: Vec<u8>,
}

/// The records of an upsert.
pub struct VectorUpsertInput {
    pub records: Vec<VectorUpsertRecord>,
}

/// The vector has 1 to 4096 values, all finite.
pub open spec fn values_accepted(values: Seq<u32>) -> bool {
    1 <= values.len() <= MAX_VECTOR_DIMENSIONS && forall|i: int|
        0 <= i < values.len() ==> spec_bits_finite(#[trigger] values[i])
}

/// A record is accepted: a valid id, an accepted vector, metadata within
/// the ceiling that is the text of a JSON object.
pub open spec fn record_accepted(r: VectorUpsertRecord) -> bool {
    &&& !segment_refused(r.id@)
    &&& values_accepted(r.values@)
    &&& r.metadata@.len() <= MAX_METADATA_BYTES
    &&& json_object_text(r.metadata@)
}

/// `e` is the error an upsert gives for the refused record `rec`: that of
/// the first check it fails (its id, its number of values, their
/// finiteness, the size of its metadata, then whether the metadata is the
/// text of a JSON object).
pub open spec fn record_error(rec: VectorUpsertRecord, e: VectorError) -> bool {
    if segment_refused(rec.id@) {
        is_invalid(e, segment_message("vector_id"@))
    } else if !(1 <= rec.values@.len() <= MAX_VECTOR_DIMENSIONS) {
        is_invalid(e, "vector must contain 1 to 4096 dimensions"@)
    } else if !values_accepted(rec.values@) {
        is_invalid(e, "vector values must be finite numbers"@)
    } else if rec.metadata@.len() > MAX_METADATA_BYTES {
        is_invalid(e, "metadata cannot exceed 16384 bytes"@)
    } else {
        e is Json
    }
}

/// The creation time a record written `now` takes: that of the record it
/// replaces, if there is one.
pub open spec fn kept_creation(existing: Option<DecodedRecord>, now: u64) -> u64 {
    match existing {
        Some(old) => old.created_at_ms,
        None => now,
    }
}

/// The collection's segments are accepted.
pub open spec fn scope_accepted(namespace: Seq<char>, index: Seq<char>, partition: Seq<char>) -> bool {
    !segment_refused(namespace) && !segment_refused(index) && !segment_refused(partition)
}

/// The key and bytes to store for an accepted record, given the record
/// read back under its key (if any): it keeps that record's creation time
/// and is updated now.
pub fn prepare_record(
    namespace: &str,
    index: &str,
    partition: &str,
    record: &VectorUpsertRecord,
    existing: &Option<DecodedRecord>,
    now: u64,
) -> (r: Result<(String, Vec<u8>), VectorError>)
    requires
        record_accepted(*record),
    ensures
        r matches Ok((key, bytes)) && key@ == spec_record_key(namespace@, index@, partition@, record.id@)
            && bytes@ == spec_encode_record(
            record.values@,
            record.metadata@,
            kept_creation(*existing, now),
            now,
        ),
{
    let key = record_key(namespace, index, partition, record.id.as_str());
    let created_at_ms = match existing {
        Some(old) => old.created_at_ms,
        None => now,
    };
    match encode_record(record.values.as_slice(), record.metadata.as_slice(), created_at_ms, now) {
        Ok(bytes) => Ok((key, bytes)),
        Err(e) => Err(e),
    }
}

/// The fields of a decoded record: id, values, metadata text, creation and
/// update times.
pub open spec fn record_fields(r: DecodedRecord) -> (Seq<char>, Seq<u32>, Seq<u8>, u64, u64) {
    (r.id@, r.values@, r.metadata@, r.created_at_ms, r.updated_at_ms)
}

/// The fields of the record stored as `bytes` under `key`.
pub open spec fn stored_fields(key: Seq<char>, bytes: Seq<u8>) -> (Seq<char>, Seq<u32>, Seq<u8>, u64, u64) {
    (
        spec_record_id_from_key(key),
        framed_values(bytes),
        framed_metadata(bytes),
        header_created(bytes),
        header_updated(bytes),
    )
}

/// The fields of the record stored as `row`.
pub open spec fn row_fields(row: KeyValue) -> (Seq<char>, Seq<u32>, Seq<u8>, u64, u64) {
    stored_fields(row.key@, row.value@)
}

/// Bytes that read back as a record: well framed, with JSON-object metadata.
pub open spec fn readable(b: Seq<u8>) -> bool {
    well_framed(b) && json_object_text(framed_metadata(b))
}

/// `rc` is the receipt of the `get` that reading `key` back hands the store,
/// and `res` what the reading makes of its answer: the store's error when
/// the call failed, `None` when nothing was found, else the record the
/// found bytes decode to, or the decoding's error.
pub open spec fn read_of(rc: StoreReceipt, key: Seq<char>, res: Result<Option<DecodedRecord>, VectorError>) -> bool {
    match rc.call() {
        StoreCall::Get { key: k, ok, found } => {
            &&& k == key_bytes(key)
            &&& !ok ==> res is Err && res->Err_0 is Store
            &&& ok && found is None ==> res == Ok::<Option<DecodedRecord>, VectorError>(None)
            &&& ok && found is Some && readable(found->0) ==> res is Ok && res->Ok_0 is Some
                && record_fields(res->Ok_0->0) == stored_fields(key, found->0)
            &&& ok && found is Some && well_framed(found->0) && !readable(found->0) ==> res is Err
                && res->Err_0 is Json
            &&& ok && found is Some && !well_framed(found->0) ==> res is Err && res->Err_0 is Invalid
        },
        _ => false,
    }
}

/// The text of an optional string.
pub open spec fn opt_str_view(s: Option<&str>) -> Option<Seq<char>> {
    match s {
        Some(a) => Some(a@),
        None => None,
    }
}

/// One page of a scan over a collection's records.
pub struct RecordPage {
    /// The records of the page, decoded, in key order.
    pub records: Vec<DecodedRecord>,
    /// The last key the page listed, after which the next page starts;
    /// `None` when the page listed nothing and the scan is over.
    pub last_key: Option<String>,
}

/// `page` is what a scan gives for the listed `rows`: they are the next
/// rows of the collection after `after`, at most a batch of them, each a
/// well-framed record, and the page holds their records in the same order.
pub open spec fn page_of(page: RecordPage, rows: Seq<KeyValue>, prefix: Seq<char>, after: Option<Seq<char>>) -> bool {
    &&& listed_in_order(
        rows,
        key_bytes(prefix),
        match after {
            Some(a) => Some(key_bytes(a)),
            None => None,
        },
        QUERY_SCAN_BATCH,
    )
    &&& forall|i: int|
        0 <= i < rows.len() ==> well_framed(#[trigger] rows[i].value@) && json_object_text(
            framed_metadata(rows[i].value@),
        )
    &&& (page.last_key is None <==> rows.len() == 0)
    &&& (page.last_key matches Some(k) ==> k@ == rows.last().key@)
    &&& page.records@.map_values(|r: DecodedRecord| record_fields(r)) == rows.map_values(
        |row: KeyValue| row_fields(row),
    )
}

/// The fields of a record as the approximate index takes it: id, values,
/// metadata text.
pub open spec fn ann_fields(r: VectorAnnRecord) -> (Seq<char>, Seq<u32>, Seq<u8>) {
    (r.id@, r.values@, r.metadata@)
}

/// The records that `rows` give the approximate index of `dimensions`: each
/// row whose vector has that many values, in order.
pub open spec fn ann_rows(rows: Seq<KeyValue>, dimensions: nat) -> Seq<(Seq<char>, Seq<u32>, Seq<u8>)>
    decreases rows.len(),
{
    if rows.len() == 0 {
        Seq::empty()
    } else {
        let rest = ann_rows(rows.drop_last(), dimensions);
        let row = rows.last();
        if header_dimensions(row.value@) == dimensions {
            rest.push((spec_record_id_from_key(row.key@), framed_values(row.value@), framed_metadata(row.value@)))
        } else {
            rest
        }
    }
}

/// A row the approximate index reads without error: well framed, and, when
/// its vector has `dimensions` values, with metadata that is `{}` or a JSON
/// object.
pub open spec fn ann_row_readable(row: KeyValue, dimensions: nat) -> bool {
    &&& well_framed(row.value@)
    &&& header_dimensions(row.value@) == dimensions ==> (framed_metadata(row.value@) == empty_object_text()
        || json_object_text(framed_metadata(row.value@)))
}

/// One page of a scan for the approximate index.
pub struct AnnRecordPage {
    /// The page's records whose vectors have the asked number of values.
    pub records: Vec<VectorAnnRecord>,
    /// The last key the page listed; `None` when the page listed nothing.
    pub last_key: Option<String>,
}

/// `page` is what a scan for the approximate index of `dimensions` gives
/// for the listed `rows`.
pub open spec fn ann_page_of(
    page: AnnRecordPage,
    rows: Seq<KeyValue>,
    prefix: Seq<char>,
    after: Option<Seq<char>>,
    dimensions: nat,
) -> bool {
    &&& listed_in_order(
        rows,
        key_bytes(prefix),
        match after {
            Some(a) => Some(key_bytes(a)),
            None => None,
        },
        QUERY_SCAN_BATCH,
    )
    &&& forall|i: int| 0 <= i < rows.len() ==> #[trigger] ann_row_readable(rows[i], dimensions)
    &&& (page.last_key is None <==> rows.len() == 0)
    &&& (page.last_key matches Some(k) ==> k@ == rows.last().key@)
    &&& page.records@.map_values(|r: VectorAnnRecord| ann_fields(r)) == ann_rows(rows, dimensions)
}

/// The key bytes of the record with id `id` in a collection.
pub open spec fn record_key_bytes(namespace: Seq<char>, index: Seq<char>, partition: Seq<char>, id: Seq<char>) -> Seq<u8> {
    key_bytes(spec_record_key(namespace, index, partition, id))
}

/// The creation time of a record written `now` over the bytes found under
/// its key, if any.
pub open spec fn created_from(found: Option<Seq<u8>>, now: u64) -> u64 {
    match found {
        Some(b) => header_created(b),
        None => now,
    }
}

/// Whether the receipt is of a call that succeeded.
pub open spec fn call_ok(rc: StoreReceipt) -> bool {
    match rc.call() {
        StoreCall::Put { ok, .. } => ok,
        StoreCall::Get { ok, .. } => ok,
        StoreCall::Delete { ok, .. } => ok,
        StoreCall::Range { ok, .. } => ok,
    }
}

/// The receipt is of a `get` of `key`.
pub open spec fn is_get_of(rc: StoreReceipt, key: Seq<u8>) -> bool {
    rc.call() is Get && rc.call()->Get_key == key
}

/// The receipt is of an `insert` of `value` under `key`.
pub open spec fn is_put_of(rc: StoreReceipt, key: Seq<u8>, value: Seq<u8>) -> bool {
    rc.call() is Put && rc.call()->Put_key == key && rc.call()->Put_value == value
}

/// The receipt is of a `delete` of `key`.
pub open spec fn is_delete_of(rc: StoreReceipt, key: Seq<u8>) -> bool {
    rc.call() is Delete && rc.call()->Delete_key == key
}

/// The bytes a `get` found, if any.
pub open spec fn got_bytes(rc: StoreReceipt) -> Option<Seq<u8>> {
    rc.call()->Get_found
}

/// The `get` succeeded and found nothing, or bytes that read back as a
/// record.
pub open spec fn read_back_ok(rc: StoreReceipt) -> bool {
    call_ok(rc) && (got_bytes(rc) is Some ==> readable(got_bytes(rc)->0))
}

/// The `get` of record `k` of an upsert: its receipt is the call at `2k`.
pub open spec fn get_at(calls: Seq<StoreReceipt>, k: int) -> StoreReceipt {
    calls[2 * k]
}

/// The `insert` of record `k` of an upsert: its receipt is the call at
/// `2k + 1`.
pub open spec fn put_at(calls: Seq<StoreReceipt>, k: int) -> StoreReceipt {
    calls[2 * k + 1]
}

/// The bytes an upsert at clock time `now` writes for `record`, over the
/// bytes `found` under its key (if any).
pub open spec fn upsert_bytes(record: VectorUpsertRecord, found: Option<Seq<u8>>, now: u64) -> Seq<u8> {
    spec_encode_record(record.values@, record.metadata@, created_from(found, now), now)
}

/// What an upsert writes reads back as the record: for an accepted record,
/// the bytes written under its key are readable, and the record read back
/// from them under that key has the record's id, values and metadata, the
/// creation time of the bytes found before (else `now`), and update time
/// `now`.
pub proof fn lemma_upsert_reads_back(
    namespace: Seq<char>,
    index: Seq<char>,
    partition: Seq<char>,
    record: VectorUpsertRecord,
    found: Option<Seq<u8>>,
    now: u64,
)
    requires
        record_accepted(record),
    ensures
        readable(upsert_bytes(record, found, now)),
        stored_fields(spec_record_key(namespace, index, partition, record.id@), upsert_bytes(record, found, now))
            == (record.id@, record.values@, record.metadata@, created_from(found, now), now),
{
    lemma_decode_encode(record.values@, record.metadata@, created_from(found, now), now);
    lemma_record_id_from_key(namespace, index, partition, record.id@);
}

/// `calls` are the receipts of what an upsert of `records` into a
/// collection, at clock time `now`, handed the store: for each record in
/// turn, up to where the upsert stopped, a `get` of its key, then an
/// `insert` under that key of the record encoded with the creation time of
/// the record found (else `now`) and update time `now`.
///
/// Every record handed on is accepted, and every read back before a write
/// succeeded with readable bytes; nothing is handed on for a refused
/// collection or batch size; a success writes every record. The upsert
/// stops at the first refused record, with the error `record_error` names
/// for it, at a failed or unreadable read back, or at a failed write, and
/// its error says which.
pub open spec fn upsert_calls_ok(
    calls: Seq<StoreReceipt>,
    now: u64,
    namespace: Seq<char>,
    index: Seq<char>,
    partition: Seq<char>,
    records: Seq<VectorUpsertRecord>,
    r: Result<VectorUpsertResult, VectorError>,
) -> bool {
    let n = calls.len() as int;
    let w = n / 2;
    &&& n <= 2 * records.len()
    &&& forall|k: int| 0 <= k && 2 * k < n ==> record_accepted(#[trigger] records[k])
    &&& forall|k: int|
        0 <= k && 2 * k < n ==> is_get_of(
            #[trigger] get_at(calls, k),
            record_key_bytes(namespace, index, partition, records[k].id@),
        )
    &&& forall|k: int|
        0 <= k && 2 * k + 1 < n ==> read_back_ok(get_at(calls, k)) && is_put_of(
            #[trigger] put_at(calls, k),
            record_key_bytes(namespace, index, partition, records[k].id@),
            upsert_bytes(records[k], got_bytes(get_at(calls, k)), now),
        )
    &&& forall|k: int| 0 <= k && 2 * k + 3 <= n ==> call_ok(#[trigger] put_at(calls, k))
    &&& (!scope_accepted(namespace, index, partition) || !(1 <= records.len() <= MAX_RECORDS_PER_UPSERT))
        ==> n == 0
    &&& r is Ok ==> n == 2 * records.len() && r->Ok_0.upserted == records.len() && (n > 0 ==> call_ok(
        calls.last(),
    ))
    &&& r is Err && r->Err_0 is Invalid ==> !scope_accepted(namespace, index, partition) || !(1
        <= records.len() <= MAX_RECORDS_PER_UPSERT) || r->Err_0->Invalid_0@ == "system clock before unix epoch"@
        || (n % 2 == 0 && w < records.len() && !record_accepted(records[w])) || (n % 2 == 1 && call_ok(
        calls.last(),
    ) && got_bytes(calls.last()) is Some && !well_framed(got_bytes(calls.last())->0))
    &&& r is Err && r->Err_0 is Json ==> (n % 2 == 0 && w < records.len() && !record_accepted(records[w])) || (
    n % 2 == 1 && call_ok(calls.last()) && got_bytes(calls.last()) is Some && well_framed(
        got_bytes(calls.last())->0,
    ) && !json_object_text(framed_metadata(got_bytes(calls.last())->0)))
    &&& r is Err && r->Err_0 is Store ==> n > 0 && !call_ok(calls.last())
    &&& r is Err && scope_accepted(namespace, index, partition) && 1 <= records.len() <= MAX_RECORDS_PER_UPSERT
        && n % 2 == 0 && w < records.len() && (n == 0 || call_ok(calls.last())) ==> (!record_accepted(
        records[w],
    ) && record_error(records[w], r->Err_0)) || is_invalid(r->Err_0, "system clock before unix epoch"@)
}

/// How many of the deletes in `calls` removed a record.
pub open spec fn count_removed(calls: Seq<StoreReceipt>) -> nat
    decreases calls.len(),
{
    if calls.len() == 0 {
        0
    } else {
        count_removed(calls.drop_last()) + if calls.last().call() is Delete && calls.last().call()->Delete_ok
            && calls.last().call()->Delete_removed {
            1nat
        } else {
            0nat
        }
    }
}

/// The receipt is of a successful delete that removed a record.
pub open spec fn removed_a_record(rc: StoreReceipt) -> bool {
    rc.call() is Delete && rc.call()->Delete_ok && rc.call()->Delete_removed
}

/// A delete counts every removal: one more delete that removed a record
/// adds one to the count, any other call adds nothing, and the count is
/// the number of receipts that report a removal.
pub proof fn lemma_count_removed(calls: Seq<StoreReceipt>, rc: StoreReceipt)
    ensures
        count_removed(calls.push(rc)) == count_removed(calls) + if removed_a_record(rc) {
            1nat
        } else {
            0nat
        },
        count_removed(calls) == calls.filter(|c: StoreReceipt| removed_a_record(c)).len(),
        count_removed(calls) <= calls.len(),
        (forall|k: int| 0 <= k < calls.len() ==> #[trigger] removed_a_record(calls[k])) ==> count_removed(
            calls,
        ) == calls.len(),
    decreases calls.len(),
{
    assert(calls.push(rc).drop_last() =~= calls);
    reveal(Seq::filter);
    if calls.len() > 0 {
        let d = calls.drop_last();
        lemma_count_removed(d, calls.last());
        assert(d.push(calls.last()) =~= calls);
        if forall|k: int| 0 <= k < calls.len() ==> #[trigger] removed_a_record(calls[k]) {
            assert forall|k: int| 0 <= k < d.len() implies #[trigger] removed_a_record(d[k]) by {
                assert(d[k] == calls[k]);
            }
            assert(removed_a_record(calls[calls.len() - 1]));
        }
    } else {
        assert(calls.filter(|c: StoreReceipt| removed_a_record(c)) =~= Seq::<StoreReceipt>::empty());
    }
}

/// `calls` are the receipts of what a delete of `ids` from a collection
/// handed the store: for each id in turn, up to where the delete stopped, a
/// `delete` of its record key. Every id handed on is valid and every call
/// but the last succeeded; nothing is handed on for a refused collection;
/// a success hands on every id and counts the records removed; a refused
/// id stops the delete at its position; a failed call stops it there.
pub open spec fn delete_calls_ok(
    calls: Seq<StoreReceipt>,
    namespace: Seq<char>,
    index: Seq<char>,
    partition: Seq<char>,
    ids: Seq<String>,
    r: Result<VectorDeleteResult, VectorError>,
) -> bool {
    &&& calls.len() <= ids.len()
    &&& forall|k: int| 0 <= k < calls.len() ==> !segment_refused(#[trigger] ids[k]@)
    &&& forall|k: int|
        0 <= k < calls.len() ==> is_delete_of(#[trigger] calls[k], record_key_bytes(namespace, index, partition, ids[k]@))
    &&& forall|k: int| 0 <= k < calls.len() - 1 ==> call_ok(#[trigger] calls[k])
    &&& !scope_accepted(namespace, index, partition) ==> calls.len() == 0
    &&& r is Ok ==> calls.len() == ids.len() && (calls.len() > 0 ==> call_ok(calls.last()))
        && r->Ok_0.deleted == count_removed(calls)
    &&& r is Err && r->Err_0 is Invalid ==> !scope_accepted(namespace, index, partition) || (
    calls.len() < ids.len() && segment_refused(ids[calls.len() as int]@) && (calls.len() > 0 ==> call_ok(
        calls.last(),
    )))
    &&& r is Err && r->Err_0 is Store ==> calls.len() > 0 && !call_ok(calls.last())
    &&& r is Err && scope_accepted(namespace, index, partition) && (calls.len() == 0 || call_ok(calls.last()))
        ==> calls.len() < ids.len() && segment_refused(ids[calls.len() as int]@) && is_invalid(
        r->Err_0,
        segment_message("vector_id"@),
    )
}

/// Vector operations on the collections of one key-value store.
#[derive(Clone)]
pub struct VectorStore {
    store: Store,
}

impl VectorStore {
    pub fn new(store: Store) -> (r: VectorStore)
        ensures
            r.spec_store() == store,
    {
        VectorStore { store }
    }

    /// The key-value store the records are kept in.
    pub closed spec fn spec_store(&self) -> Store {
        self.store
    }

    /// The key-value store.
    pub fn store(&self) -> (r: &Store)
        ensures
            *r == self.spec_store(),
    {
        &self.store
    }

    /// The record stored under `key`, read back from its bytes; `None` when
    /// there is none. Its metadata is the stored JSON text. Gives back the
    /// receipt of the `get` handed to the store.
    pub fn get_record(&self, key: &str) -> (r: (Result<Option<DecodedRecord>, VectorError>, Ghost<StoreReceipt>))
        ensures
            read_of(r.1@, key@, r.0),
            store_key_refused(key_bytes(key@)) ==> r.0 matches Err(VectorError::Store(_)),
            r.0 matches Err(e) ==> e is Store || e is Invalid || e is Json,
    {
        let (got, receipt) = self.store.get_bytes(key);
        let bytes = match got {
            Ok(Some(bytes)) => bytes,
            Ok(None) => {
                return (Ok(None), receipt);
            },
            Err(e) => {
                return (Err(VectorError::Store(e)), receipt);
            },
        };
        let res = match decode_record(key, bytes.as_slice()) {
            Ok(rec) => Ok(Some(rec)),
            Err(e) => Err(e),
        };
        (res, receipt)
    }

    /// Reads the next page of the records under `prefix` after the key
    /// `after` (from the first when `None`): up to a batch of rows, each
    /// decoded, with the receipt of the range query handed to the store.
    /// Fails on a stored record that cannot be decoded.
    pub fn scan_page(&self, prefix: &str, after: Option<&str>) -> (r: (Result<RecordPage, VectorError>, Ghost<StoreReceipt>))
        ensures
            r.0 matches Ok(page) ==> exists|rows: Seq<KeyValue>|
                #[trigger] page_of(page, rows, prefix@, opt_str_view(after)) && listing_of(
                    r.1@,
                    key_bytes(prefix@),
                    after_bytes(after),
                    QUERY_SCAN_BATCH,
                    Ok(rows),
                ),
            r.0 matches Err(VectorError::Store(e)) ==> listing_of(
                r.1@,
                key_bytes(prefix@),
                after_bytes(after),
                QUERY_SCAN_BATCH,
                Err(e),
            ),
            r.0 is Err && !(r.0->Err_0 is Store) ==> exists|rows: Seq<KeyValue>|
                #[trigger] listing_of(r.1@, key_bytes(prefix@), after_bytes(after), QUERY_SCAN_BATCH, Ok(rows))
                    && exists|i: int| 0 <= i < rows.len() && !readable(#[trigger] rows[i].value@),
            r.0 matches Err(e) ==> e is Store || e is Invalid || e is Json,
    {
        let (listed, receipt) = self.store.list_prefix_after(prefix, after, QUERY_SCAN_BATCH);
        let ghost rc = receipt@->0;
        let rows = match listed {
            Ok(rows) => rows,
            Err(e) => {
                return (Err(VectorError::Store(e)), Ghost(rc));
            },
        };
        let mut records: Vec<DecodedRecord> = Vec::new();
        let mut i: usize = 0;
        while i < rows.len()
            invariant
                i <= rows@.len(),
                forall|j: int| 0 <= j < i ==> readable(#[trigger] rows@[j].value@),
                listing_of(rc, key_bytes(prefix@), after_bytes(after), QUERY_SCAN_BATCH, Ok(rows@)),
                records@.map_values(|r: DecodedRecord| record_fields(r)) == rows@.take(
                    i as int,
                ).map_values(|row: KeyValue| row_fields(row)),
            decreases rows@.len() - i,
        {
            let rec = match decode_record(rows[i].key.as_str(), rows[i].value.as_slice()) {
                Ok(rec) => rec,
                Err(e) => {
                    proof {
                        assert(!readable(rows@[i as int].value@));
                        assert(listing_of(rc, key_bytes(prefix@), after_bytes(after), QUERY_SCAN_BATCH, Ok(rows@)));
                    }
                    let res: (Result<RecordPage, VectorError>, Ghost<StoreReceipt>) = (Err(e), Ghost(rc));
                    assert(res.1@ == rc);
                    assert(!(res.0->Err_0 is Store));
                    return res;
                },
            };
            let ghost before = records@;
            records.push(rec);
            assert(records@.map_values(|r: DecodedRecord| record_fields(r)) =~= before.map_values(
                |r: DecodedRecord| record_fields(r),
            ).push(row_fields(rows@[i as int])));
            assert(rows@.take(i + 1).map_values(|row: KeyValue| row_fields(row)) =~= rows@.take(
                i as int,
            ).map_values(|row: KeyValue| row_fields(row)).push(row_fields(rows@[i as int])));
            i = i + 1;
        }
        assert(rows@.take(rows@.len() as int) =~= rows@);
        let last_key = if rows.len() == 0 {
            None
        } else {
            Some(rows[rows.len() - 1].key.clone())
        };
        let page = RecordPage { records, last_key };
        assert(page_of(page, rows@, prefix@, opt_str_view(after)));
        assert(listing_of(rc, key_bytes(prefix@), after_bytes(after), QUERY_SCAN_BATCH, Ok(rows@)));
        (Ok(page), Ghost(rc))
    }

    /// Reads the next page of the records under `prefix` after the key
    /// `after`, as the approximate index of `dimensions` takes them: the
    /// rows whose vectors have that many values, with the receipt of the
    /// range query handed to the store. Fails on a stored record that
    /// cannot be decoded.
    pub fn scan_ann_page(&self, prefix: &str, after: Option<&str>, dimensions: usize) -> (r: (
        Result<AnnRecordPage, VectorError>,
        Ghost<StoreReceipt>,
    ))
        ensures
            r.0 matches Ok(page) ==> exists|rows: Seq<KeyValue>|
                #[trigger] ann_page_of(page, rows, prefix@, opt_str_view(after), dimensions as nat)
                    && listing_of(r.1@, key_bytes(prefix@), after_bytes(after), QUERY_SCAN_BATCH, Ok(rows)),
            r.0 matches Err(VectorError::Store(e)) ==> listing_of(
                r.1@,
                key_bytes(prefix@),
                after_bytes(after),
                QUERY_SCAN_BATCH,
                Err(e),
            ),
            r.0 is Err && !(r.0->Err_0 is Store) ==> exists|rows: Seq<KeyValue>|
                #[trigger] listing_of(r.1@, key_bytes(prefix@), after_bytes(after), QUERY_SCAN_BATCH, Ok(rows))
                    && exists|i: int|
                    0 <= i < rows.len() && !ann_row_readable(#[trigger] rows[i], dimensions as nat),
            r.0 matches Err(e) ==> e is Store || e is Invalid || e is Json,
    {
        let (listed, receipt) = self.store.list_prefix_after(prefix, after, QUERY_SCAN_BATCH);
        let ghost rc = receipt@->0;
        let rows = match listed {
            Ok(rows) => rows,
            Err(e) => {
                return (Err(VectorError::Store(e)), Ghost(rc));
            },
        };
        let mut records: Vec<VectorAnnRecord> = Vec::new();
        let mut i: usize = 0;
        while i < rows.len()
            invariant
                i <= rows@.len(),
                forall|j: int| 0 <= j < i ==> #[trigger] ann_row_readable(rows@[j], dimensions as nat),
                listing_of(rc, key_bytes(prefix@), after_bytes(after), QUERY_SCAN_BATCH, Ok(rows@)),
                records@.map_values(|r: VectorAnnRecord| ann_fields(r)) == ann_rows(
                    rows@.take(i as int),
                    dimensions as nat,
                ),
            decreases rows@.len() - i,
        {
            let found = match decode_ann_record(rows[i].key.as_str(), rows[i].value.as_slice(), dimensions) {
                Ok(found) => found,
                Err(e) => {
                    proof {
                        assert(!ann_row_readable(rows@[i as int], dimensions as nat));
                        assert(listing_of(rc, key_bytes(prefix@), after_bytes(after), QUERY_SCAN_BATCH, Ok(rows@)));
                    }
                    let res: (Result<AnnRecordPage, VectorError>, Ghost<StoreReceipt>) = (Err(e), Ghost(rc));
                    assert(res.1@ == rc);
                    assert(!(res.0->Err_0 is Store));
                    return res;
                },
            };
            let ghost before = records@;
            assert(rows@.take(i + 1).drop_last() =~= rows@.take(i as int));
            assert(rows@.take(i + 1).last() == rows@[i as int]);
            match found {
                Some(rec) => {
                    records.push(rec);
                    assert(records@.map_values(|r: VectorAnnRecord| ann_fields(r)) =~= before.map_values(
                        |r: VectorAnnRecord| ann_fields(r),
                    ).push(
                        (
                            spec_record_id_from_key(rows@[i as int].key@),
                            framed_values(rows@[i as int].value@),
                            framed_metadata(rows@[i as int].value@),
                        ),
                    ));
                },
                None => {},
            }
            i = i + 1;
        }
        assert(rows@.take(rows@.len() as int) =~= rows@);
        let last_key = if rows.len() == 0 {
            None
        } else {
            Some(rows[rows.len() - 1].key.clone())
        };
        let page = AnnRecordPage { records, last_key };
        assert(ann_page_of(page, rows@, prefix@, opt_str_view(after), dimensions as nat));
        assert(listing_of(rc, key_bytes(prefix@), after_bytes(after), QUERY_SCAN_BATCH, Ok(rows@)));
        (Ok(page), Ghost(rc))
    }

    /// Reads the records of a collection with the given ids, in the order
    /// of `ids`: the record stored under each id, if any, with the receipts
    /// of the `get`s handed to the store, one per id up to where the reading
    /// stopped.
    pub fn fetch_records(&self, namespace: &str, index: &str, partition: &str, ids: &[&str]) -> (r: (
        Result<Vec<Option<DecodedRecord>>, VectorError>,
        Ghost<Seq<StoreReceipt>>,
    ))
        ensures
            r.1@.len() <= ids@.len(),
            r.0 matches Ok(v) ==> {
                &&& v@.len() == ids@.len()
                &&& r.1@.len() == ids@.len()
                &&& forall|j: int|
                    0 <= j < v@.len() ==> read_of(
                        #[trigger] r.1@[j],
                        spec_record_key(namespace@, index@, partition@, ids@[j]@),
                        Ok(v@[j]),
                    )
            },
            r.0 is Err ==> r.1@.len() > 0 && read_of(
                r.1@.last(),
                spec_record_key(namespace@, index@, partition@, ids@[r.1@.len() - 1]@),
                Err(r.0->Err_0),
            ),
            r.0 matches Err(e) ==> e is Store || e is Invalid || e is Json,
    {
        let ghost mut calls: Seq<StoreReceipt> = Seq::empty();
        let mut out: Vec<Option<DecodedRecord>> = Vec::new();
        let mut j: usize = 0;
        while j < ids.len()
            invariant
                j <= ids@.len(),
                out@.len() == j,
                calls.len() == j,
                forall|k: int|
                    0 <= k < j ==> read_of(
                        #[trigger] calls[k],
                        spec_record_key(namespace@, index@, partition@, ids@[k]@),
                        Ok(out@[k]),
                    ),
            decreases ids@.len() - j,
        {
            let key = record_key(namespace, index, partition, ids[j]);
            let (found, receipt) = self.get_record(key.as_str());
            proof {
                calls = calls.push(receipt@);
            }
            match found {
                Ok(found) => {
                    out.push(found);
                },
                Err(e) => {
                    return (Err(e), Ghost(calls));
                },
            }
            j = j + 1;
        }
        (Ok(out), Ghost(calls))
    }

    /// Writes the records of `input` into a collection, in order. Each
    /// record keeps the creation time of the record it replaces.
    ///
    /// Refuses a bad collection or batch size before writing anything; a bad
    /// record stops the batch there, after the records before it were
    /// written. `wrote_any` tells whether any record was written, so that
    /// the caller can mark the collection's approximate index dirty.
    ///
    /// Gives back the clock time read and the receipts of the calls handed
    /// to the store (see `upsert_calls_ok`).
    pub fn upsert(
        &self,
        namespace: &str,
        index: &str,
        partition: &str,
        input: VectorUpsertInput,
        wrote_any: &mut bool,
    ) -> (r: (Result<VectorUpsertResult, VectorError>, Ghost<(u64, Seq<StoreReceipt>)>))
        ensures
            upsert_calls_ok(r.1@.1, r.1@.0, namespace@, index@, partition@, input.records@, r.0),
            *final(wrote_any) == (*old(wrote_any) || (r.1@.1.len() >= 2 && call_ok(put_at(r.1@.1, 0)))),
            !scope_accepted(namespace@, index@, partition@) ==> r.0 is Err && is_invalid(
                r.0->Err_0,
                segment_message(
                    if segment_refused(namespace@) {
                        "namespace"@
                    } else if segment_refused(index@) {
                        "index"@
                    } else {
                        "partition"@
                    },
                ),
            ),
            scope_accepted(namespace@, index@, partition@) && !(1 <= input.records@.len()
                <= MAX_RECORDS_PER_UPSERT) ==> r.0 is Err && is_invalid(
                r.0->Err_0,
                "upsert must contain 1 to 128 records"@,
            ),
            (exists|i: int| 0 <= i < input.records@.len() && !record_accepted(#[trigger] input.records@[i])) ==> r.0 is Err,
            r.0 matches Err(e) ==> e is Store || e is Invalid || e is Json,
    {
        let ghost mut calls: Seq<StoreReceipt> = Seq::empty();
        match validate_scope(namespace, index, partition) {
            Ok(()) => {},
            Err(e) => {
                return (Err(e), Ghost((0u64, calls)));
            },
        }
        match validate_upsert_len(input.records.len()) {
            Ok(()) => {},
            Err(e) => {
                return (Err(e), Ghost((0u64, calls)));
            },
        }
        let now = match now_ms() {
            Ok(t) => t,
            Err(e) => {
                return (Err(e), Ghost((0u64, calls)));
            },
        };
        let records = input.records;
        let mut j: usize = 0;
        while j < records.len()
            invariant
                records@ == input.records@,
                scope_accepted(namespace@, index@, partition@),
                1 <= records@.len() <= MAX_RECORDS_PER_UPSERT,
                j <= records@.len(),
                calls.len() == 2 * j,
                forall|k: int| 0 <= k < j ==> record_accepted(#[trigger] records@[k]),
                forall|k: int|
                    0 <= k < j ==> is_get_of(
                        #[trigger] get_at(calls, k),
                        record_key_bytes(namespace@, index@, partition@, records@[k].id@),
                    ) && read_back_ok(get_at(calls, k)),
                forall|k: int|
                    0 <= k < j ==> is_put_of(
                        #[trigger] put_at(calls, k),
                        record_key_bytes(namespace@, index@, partition@, records@[k].id@),
                        upsert_bytes(records@[k], got_bytes(get_at(calls, k)), now),
                    ) && call_ok(put_at(calls, k)),
                *wrote_any == (*old(wrote_any) || j >= 1),
            decreases records@.len() - j,
        {
            let record = &records[j];
            let checked = match validate_segment(record.id.as_str(), "vector_id") {
                Ok(()) => match validate_values(record.values.as_slice()) {
                    Ok(()) => match validate_metadata(record.metadata.as_slice()) {
                        Ok(()) => check_metadata(record.metadata.as_slice()),
                        Err(e) => Err(e),
                    },
                    Err(e) => Err(e),
                },
                Err(e) => Err(e),
            };
            match checked {
                Ok(()) => {},
                Err(e) => {
                    proof {
                        assert(upsert_calls_ok(calls, now, namespace@, index@, partition@, input.records@, Err(e)));
                    }
                    return (Err(e), Ghost((now, calls)));
                },
            }
            assert(record_accepted(records@[j as int]));
            let key = record_key(namespace, index, partition, record.id.as_str());
            let (got, get_receipt) = self.get_record(key.as_str());
            let ghost before = calls;
            proof {
                calls = calls.push(get_receipt@);
                assert(calls.last() == get_receipt@);
                assert forall|k: int| 0 <= k < j implies get_at(calls, k) == get_at(before, k)
                    && put_at(calls, k) == put_at(before, k) by {}
            }
            let existing = match got {
                Ok(found) => found,
                Err(e) => {
                    proof {
                        assert(get_at(calls, j as int) == get_receipt@);
                        assert(upsert_calls_ok(calls, now, namespace@, index@, partition@, input.records@, Err(e)));
                    }
                    return (Err(e), Ghost((now, calls)));
                },
            };
            let (key, bytes) = match prepare_record(namespace, index, partition, record, &existing, now) {
                Ok(prepared) => prepared,
                Err(e) => {
                    return (Err(e), Ghost((now, calls)));
                },
            };
            assert(kept_creation(existing, now) == created_from(got_bytes(get_receipt@), now));
            let (put, put_receipt) = self.store.put_bytes(key.as_str(), bytes.as_slice());
            let ghost mid = calls;
            proof {
                calls = calls.push(put_receipt@);
                assert forall|k: int| 0 <= k < j implies get_at(calls, k) == get_at(before, k)
                    && put_at(calls, k) == put_at(before, k) by {}
                assert(get_at(calls, j as int) == get_receipt@);
                assert(put_at(calls, j as int) == put_receipt@);
            }
            match put {
                Ok(_) => {},
                Err(e) => {
                    proof {
                        assert(upsert_calls_ok(
                            calls,
                            now,
                            namespace@,
                            index@,
                            partition@,
                            input.records@,
                            Err(VectorError::Store(e)),
                        ));
                    }
                    return (Err(VectorError::Store(e)), Ghost((now, calls)));
                },
            }
            *wrote_any = true;
            j = j + 1;
        }
        let r = Ok(VectorUpsertResult { upserted: j });
        proof {
            assert(calls.last() == put_at(calls, j - 1));
            assert(upsert_calls_ok(calls, now, namespace@, index@, partition@, input.records@, r));
        }
        (r, Ghost((now, calls)))
    }

    /// Deletes the records of `input` from a collection, in order, and
    /// counts those that were there. Refuses a bad collection before
    /// deleting anything; a bad id stops there, after the ids before it
    /// were deleted. `deleted_any` tells whether a record was deleted.
    ///
    /// Gives back the receipts of the deletes handed to the store (see
    /// `delete_calls_ok`).
    pub fn delete(
        &self,
        namespace: &str,
        index: &str,
        partition: &str,
        input: VectorDeleteInput,
        deleted_any: &mut bool,
    ) -> (r: (Result<VectorDeleteResult, VectorError>, Ghost<Seq<StoreReceipt>>))
        ensures
            delete_calls_ok(r.1@, namespace@, index@, partition@, input.ids@, r.0),
            *final(deleted_any) == (*old(deleted_any) || count_removed(r.1@) > 0),
            !scope_accepted(namespace@, index@, partition@) ==> r.0 is Err && is_invalid(
                r.0->Err_0,
                segment_message(
                    if segment_refused(namespace@) {
                        "namespace"@
                    } else if segment_refused(index@) {
                        "index"@
                    } else {
                        "partition"@
                    },
                ),
            ),
            (exists|i: int| 0 <= i < input.ids@.len() && segment_refused(#[trigger] input.ids@[i]@)) ==> r.0 is Err,
            r.0 matches Err(e) ==> e is Store || e is Invalid,
            r.0 matches Ok(res) ==> res.deleted <= input.ids@.len(),
    {
        let ghost mut calls: Seq<StoreReceipt> = Seq::empty();
        match validate_scope(namespace, index, partition) {
            Ok(()) => {},
            Err(e) => {
                return (Err(e), Ghost(calls));
            },
        }
        let ids = input.ids;
        let mut deleted: usize = 0;
        let mut j: usize = 0;
        while j < ids.len()
            invariant
                ids@ == input.ids@,
                scope_accepted(namespace@, index@, partition@),
                j <= ids@.len(),
                calls.len() == j,
                forall|k: int| 0 <= k < j ==> !segment_refused(#[trigger] ids@[k]@),
                forall|k: int|
                    0 <= k < j ==> is_delete_of(
                        #[trigger] calls[k],
                        record_key_bytes(namespace@, index@, partition@, ids@[k]@),
                    ),
                forall|k: int| 0 <= k < j ==> call_ok(#[trigger] calls[k]),
                deleted == count_removed(calls),
                deleted <= j,
                *deleted_any == (*old(deleted_any) || count_removed(calls) > 0),
            decreases ids@.len() - j,
        {
            match validate_segment(ids[j].as_str(), "vector_id") {
                Ok(()) => {},
                Err(e) => {
                    proof {
                        assert(delete_calls_ok(calls, namespace@, index@, partition@, input.ids@, Err(e)));
                    }
                    return (Err(e), Ghost(calls));
                },
            }
            let key = record_key(namespace, index, partition, ids[j].as_str());
            let (res, receipt) = self.store.delete(key.as_str());
            let ghost before = calls;
            proof {
                calls = calls.push(receipt@);
                assert(calls.drop_last() =~= before);
            }
            match res {
                Ok(was_there) => {
                    if was_there {
                        *deleted_any = true;
                        deleted = deleted + 1;
                    }
                },
                Err(e) => {
                    proof {
                        assert(delete_calls_ok(
                            calls,
                            namespace@,
                            index@,
                            partition@,
                            input.ids@,
                            Err(VectorError::Store(e)),
                        ));
                    }
                    return (Err(VectorError::Store(e)), Ghost(calls));
                },
            }
            j = j + 1;
        }
        let r = Ok(VectorDeleteResult { deleted });
        proof {
            assert(delete_calls_ok(calls, namespace@, index@, partition@, input.ids@, r));
        }
        (r, Ghost(calls))
    }
}


/// The order key of a 32-bit float score, given by its bits: zero (either
/// sign) maps to 2^31, a negative number to the complement of its bits, a
/// positive one to its bits with the top bit set. For scores that are not
/// NaN, this orders keys as the floats order, and equal floats get equal
/// keys.
pub open spec fn spec_score_key(bits: u32) -> u32 {
    if bits & 0x7fff_ffffu32 == 0 {
        0x8000_0000u32
    } else if bits & 0x8000_0000u32 != 0 {
        !bits
    } else {
        bits | 0x8000_0000u32
    }
}

/// The order key of a float score, given by its bits.
pub fn score_key(bits: u32) -> (r: u32)
    ensures
        r == spec_score_key(bits),
{
    if bits & 0x7fff_ffffu32 == 0 {
        0x8000_0000u32
    } else if bits & 0x8000_0000u32 != 0 {
        !bits
    } else {
        bits | 0x8000_0000u32
    }
}

/// For bits that are not a NaN, whether the 32-bit float with bits `a` is
/// below the one with bits `b`: a negative number (or negative zero) is
/// below a positive one unless both are zeros; two non-negative numbers
/// order by magnitude, two negative ones by reverse magnitude.
pub open spec fn float_bits_lt(a: u32, b: u32) -> bool {
    let ma = a & 0x7fff_ffffu32;
    let mb = b & 0x7fff_ffffu32;
    let na = a & 0x8000_0000u32 != 0;
    let nb = b & 0x8000_0000u32 != 0;
    if ma == 0 && mb == 0 {
        false
    } else if na && !nb {
        true
    } else if !na && nb {
        false
    } else if !na {
        ma < mb
    } else {
        ma > mb
    }
}

/// For bits that are not a NaN, whether the floats with bits `a` and `b`
/// are equal: the same bits, or two zeros.
pub open spec fn float_bits_eq(a: u32, b: u32) -> bool {
    a == b || (a & 0x7fff_ffffu32 == 0 && b & 0x7fff_ffffu32 == 0)
}

/// Score keys order as the scores: a float below another gets a smaller
/// key, and equal floats get equal keys.
pub proof fn lemma_score_key_order(a: u32, b: u32)
    ensures
        float_bits_lt(a, b) <==> spec_score_key(a) < spec_score_key(b),
        float_bits_eq(a, b) <==> spec_score_key(a) == spec_score_key(b),
{
    assert(float_bits_lt(a, b) <==> spec_score_key(a) < spec_score_key(b)) by (bit_vector);
    assert(float_bits_eq(a, b) <==> spec_score_key(a) == spec_score_key(b)) by (bit_vector);
}

/// What a query match is ranked by.
pub struct RankKey {
    /// The order key of its score (see `score_key`).
    pub score: u32,
    pub updated_at_ms: u64,
    pub id: String,
}

/// `a` ranks strictly before `b`: a higher score, then a later update,
/// then a smaller id in byte order.
pub open spec fn ranks_before(a: RankKey, b: RankKey) -> bool {
    ||| a.score > b.score
    ||| (a.score == b.score && a.updated_at_ms > b.updated_at_ms)
    ||| (a.score == b.score && a.updated_at_ms == b.updated_at_ms && bytes_lt(
        key_bytes(a.id@),
        key_bytes(b.id@),
    ))
}

/// Match `i` comes before match `j`: it ranks before, or ranks the same and
/// came first.
pub open spec fn comes_before(keys: Seq<RankKey>, i: int, j: int) -> bool {
    ||| ranks_before(keys[i], keys[j])
    ||| (!ranks_before(keys[j], keys[i]) && i < j)
}

proof fn lemma_bytes_lt_irreflexive(a: Seq<u8>)
    ensures
        !bytes_lt(a, a),
    decreases a.len(),
{
    if a.len() > 0 {
        lemma_bytes_lt_irreflexive(a.drop_first());
    }
}

proof fn lemma_bytes_lt_asymmetric(a: Seq<u8>, b: Seq<u8>)
    ensures
        !(bytes_lt(a, b) && bytes_lt(b, a)),
    decreases a.len(),
{
    if a.len() > 0 && b.len() > 0 && a[0] == b[0] {
        lemma_bytes_lt_asymmetric(a.drop_first(), b.drop_first());
    }
}

proof fn lemma_bytes_lt_transitive(a: Seq<u8>, b: Seq<u8>, c: Seq<u8>)
    requires
        bytes_lt(a, b),
        bytes_lt(b, c),
    ensures
        bytes_lt(a, c),
    decreases a.len(),
{
    if a.len() > 0 && b.len() > 0 && c.len() > 0 && a[0] == b[0] && b[0] == c[0] {
        lemma_bytes_lt_transitive(a.drop_first(), b.drop_first(), c.drop_first());
    }
}

proof fn lemma_bytes_lt_total(a: Seq<u8>, b: Seq<u8>)
    ensures
        a == b || bytes_lt(a, b) || bytes_lt(b, a),
    decreases a.len(),
{
    if a.len() > 0 && b.len() > 0 && a[0] == b[0] {
        lemma_bytes_lt_total(a.drop_first(), b.drop_first());
        if a.drop_first() == b.drop_first() {
            assert(a =~= seq![a[0]] + a.drop_first());
            assert(b =~= seq![b[0]] + b.drop_first());
        }
    } else if a.len() == 0 && b.len() == 0 {
        assert(a =~= b);
    }
}

/// `comes_before` is a strict total order on the positions of `keys`.
proof fn lemma_comes_before_order(keys: Seq<RankKey>, i: int, j: int, k: int)
    requires
        0 <= i < keys.len(),
        0 <= j < keys.len(),
        0 <= k < keys.len(),
    ensures
        !comes_before(keys, i, i),
        i != j ==> (comes_before(keys, i, j) <==> !comes_before(keys, j, i)),
        comes_before(keys, i, j) && comes_before(keys, j, k) ==> comes_before(keys, i, k),
{
    let (a, b, c) = (keys[i], keys[j], keys[k]);
    lemma_bytes_lt_irreflexive(key_bytes(a.id@));
    lemma_bytes_lt_asymmetric(key_bytes(a.id@), key_bytes(b.id@));
    lemma_bytes_lt_asymmetric(key_bytes(b.id@), key_bytes(c.id@));
    lemma_bytes_lt_asymmetric(key_bytes(a.id@), key_bytes(c.id@));
    lemma_bytes_lt_total(key_bytes(a.id@), key_bytes(b.id@));
    lemma_bytes_lt_total(key_bytes(b.id@), key_bytes(c.id@));
    lemma_bytes_lt_total(key_bytes(a.id@), key_bytes(c.id@));
    if bytes_lt(key_bytes(a.id@), key_bytes(b.id@)) && bytes_lt(key_bytes(b.id@), key_bytes(c.id@)) {
        lemma_bytes_lt_transitive(key_bytes(a.id@), key_bytes(b.id@), key_bytes(c.id@));
    }
    if bytes_lt(key_bytes(b.id@), key_bytes(a.id@)) && bytes_lt(key_bytes(c.id@), key_bytes(b.id@)) {
        lemma_bytes_lt_transitive(key_bytes(c.id@), key_bytes(b.id@), key_bytes(a.id@));
    }
}

/// Whether `a` comes strictly before `b` in byte order.
fn str_bytes_lt(a: &str, b: &str) -> (r: bool)
    ensures
        r == bytes_lt(key_bytes(a@), key_bytes(b@)),
{
    let x = a.as_bytes();
    let y = b.as_bytes();
    let mut i: usize = 0;
    assert(x@.skip(0) =~= x@);
    assert(y@.skip(0) =~= y@);
    while i < x.len() && i < y.len()
        invariant
            x@ == key_bytes(a@),
            y@ == key_bytes(b@),
            i <= x@.len(),
            i <= y@.len(),
            bytes_lt(x@, y@) == bytes_lt(x@.skip(i as int), y@.skip(i as int)),
        decreases x@.len() - i,
    {
        assert(x@.skip(i as int).drop_first() =~= x@.skip(i + 1));
        assert(y@.skip(i as int).drop_first() =~= y@.skip(i + 1));
        if x[i] != y[i] {
            return x[i] < y[i];
        }
        i = i + 1;
    }
    assert(x@.skip(0) =~= x@);
    assert(y@.skip(0) =~= y@);
    i < y.len()
}

/// Whether key `a` ranks strictly before key `b`.
fn ranks_before_exec(a: &RankKey, b: &RankKey) -> (r: bool)
    ensures
        r == ranks_before(*a, *b),
{
    if a.score != b.score {
        return a.score > b.score;
    }
    if a.updated_at_ms != b.updated_at_ms {
        return a.updated_at_ms > b.updated_at_ms;
    }
    str_bytes_lt(a.id.as_str(), b.id.as_str())
}

/// Every position below `i` left out of `out` comes after every kept one.
pub open spec fn excluded_after(keys: Seq<RankKey>, out: Seq<usize>, n: int) -> bool {
    forall|j: int, a: int|
        0 <= j < n && 0 <= a < out.len() && !out.contains(j as usize) ==> #[trigger] comes_before(
            keys,
            out[a] as int,
            j,
        )
}

/// The positions in `out` are in order.
pub open spec fn in_rank_order(keys: Seq<RankKey>, out: Seq<usize>) -> bool {
    forall|a: int, b: int|
        0 <= a < b < out.len() ==> comes_before(keys, #[trigger] out[a] as int, #[trigger] out[b] as int)
}

/// The positions of the first `limit` matches in rank order: a higher
/// score first, then a later update, then a smaller id, and among matches
/// that rank the same, the earlier one first. Every match left out comes
/// after every match kept.
pub fn rank_order(keys: &Vec<RankKey>, limit: usize) -> (r: Vec<usize>)
    ensures
        r@.len() == if keys@.len() < limit {
            keys@.len()
        } else {
            limit as nat
        },
        forall|a: int| 0 <= a < r@.len() ==> #[trigger] r@[a] < keys@.len(),
        in_rank_order(keys@, r@),
        excluded_after(keys@, r@, keys@.len() as int),
{
    let mut out: Vec<usize> = Vec::new();
    let mut i: usize = 0;
    while i < keys.len()
        invariant
            i <= keys@.len(),
            out@.len() == if i < limit {
                i as nat
            } else {
                limit as nat
            },
            forall|a: int| 0 <= a < out@.len() ==> #[trigger] out@[a] < i,
            in_rank_order(keys@, out@),
            excluded_after(keys@, out@, i as int),
            i < limit ==> forall|j: int| 0 <= j < i ==> #[trigger] out@.contains(j as usize),
        decreases keys@.len() - i,
    {
        let mut pos: usize = 0;
        while pos < out.len() && !ranks_before_exec(&keys[i], &keys[out[pos]])
            invariant
                i < keys@.len(),
                pos <= out@.len(),
                forall|a: int| 0 <= a < out@.len() ==> #[trigger] out@[a] < i,
                forall|a: int| 0 <= a < pos ==> !ranks_before(keys@[i as int], keys@[#[trigger] out@[a] as int]),
            decreases out@.len() - pos,
        {
            pos = pos + 1;
        }
        let ghost old_out = out@;
        let ghost ks = keys@;
        proof {
            assert forall|a: int| 0 <= a < old_out.len() implies (a < pos ==> comes_before(ks, #[trigger] old_out[a] as int, i as int))
                && (a >= pos ==> comes_before(ks, i as int, old_out[a] as int)) by {
                if a >= pos {
                    assert(ranks_before(ks[i as int], ks[old_out[pos as int] as int]));
                    if a > pos {
                        assert(comes_before(ks, old_out[pos as int] as int, old_out[a] as int));
                        lemma_comes_before_order(ks, i as int, old_out[pos as int] as int, old_out[a] as int);
                    }
                }
            }
        }
        if pos < limit {
            out.insert(pos, i);
            let ghost ins = out@;
            proof {
                assert(ins == old_out.insert(pos as int, i));
                assert forall|a: int, b: int| 0 <= a < b < ins.len() implies comes_before(ks, #[trigger] ins[a] as int, #[trigger] ins[b] as int) by {
                    if b < pos {
                        assert(ins[a] == old_out[a] && ins[b] == old_out[b]);
                    } else if b == pos {
                        assert(ins[a] == old_out[a]);
                    } else if a == pos {
                        assert(ins[b] == old_out[b - 1]);
                    } else if a < pos {
                        assert(ins[a] == old_out[a] && ins[b] == old_out[b - 1]);
                    } else {
                        assert(ins[a] == old_out[a - 1] && ins[b] == old_out[b - 1]);
                    }
                }
            }
            if out.len() > limit {
                out.pop();
                proof {
                    assert(out@ =~= ins.subrange(0, ins.len() - 1));
                }
            }
            proof {
                let cur = out@;
                if i + 1 < limit {
                    assert(cur == ins);
                    assert forall|j: int| 0 <= j < i + 1 implies #[trigger] cur.contains(j as usize) by {
                        if j == i {
                            assert(cur[pos as int] == i);
                        } else {
                            assert(old_out.contains(j as usize));
                            let q = choose|q: int| 0 <= q < old_out.len() && old_out[q] == j as usize;
                            if q < pos {
                                assert(cur[q] == old_out[q]);
                            } else {
                                assert(cur[q + 1] == old_out[q]);
                            }
                        }
                    }
                }
                assert forall|a: int| 0 <= a < cur.len() implies #[trigger] cur[a] < i + 1 by {
                    assert(cur[a] == ins[a]);
                    if a != pos {
                        if a < pos {
                            assert(ins[a] == old_out[a]);
                        } else {
                            assert(ins[a] == old_out[a - 1]);
                        }
                    }
                }
                assert forall|a: int, b: int| 0 <= a < b < cur.len() implies comes_before(ks, #[trigger] cur[a] as int, #[trigger] cur[b] as int) by {
                    assert(cur[a] == ins[a] && cur[b] == ins[b]);
                }
                assert forall|j: int, a: int|
                    0 <= j < i + 1 && 0 <= a < cur.len() && !cur.contains(j as usize) implies #[trigger] comes_before(
                        ks,
                        cur[a] as int,
                        j,
                    ) by {
                    assert(cur[a] == ins[a]);
                    assert(cur[pos as int] == i);
                    if ins.len() > cur.len() && j == ins[ins.len() - 1] {
                        lemma_comes_before_order(ks, ins[a] as int, j, j);
                    } else {
                        assert(j < i);
                        assert(!old_out.contains(j as usize)) by {
                            if old_out.contains(j as usize) {
                                let q = choose|q: int| 0 <= q < old_out.len() && old_out[q] == j as usize;
                                if q < pos {
                                    assert(ins[q] == old_out[q]);
                                    assert(cur[q] == ins[q]);
                                } else {
                                    assert(ins[q + 1] == old_out[q]);
                                    if q + 1 < cur.len() {
                                        assert(cur[q + 1] == ins[q + 1]);
                                    }
                                }
                            }
                        }
                        assert(old_out.len() == limit);
                        let last = old_out[old_out.len() - 1] as int;
                        assert(comes_before(ks, last, j));
                        if a == pos {
                            assert(comes_before(ks, i as int, last));
                            lemma_comes_before_order(ks, i as int, last, j);
                        } else if a < pos {
                            assert(ins[a] == old_out[a]);
                        } else {
                            assert(ins[a] == old_out[a - 1]);
                        }
                    }
                }
            }
        } else {
            proof {
                assert forall|j: int, a: int|
                    0 <= j < i + 1 && 0 <= a < out@.len() && !out@.contains(j as usize) implies #[trigger] comes_before(
                        ks,
                        out@[a] as int,
                        j,
                    ) by {
                    if j == i {
                        assert(a < pos);
                    }
                }
            }
        }
        i = i + 1;
    }
    out
}

/// `r` lists the first `limit` positions of `keys` in rank order, as
/// `rank_order` gives them.
pub open spec fn ranked_top(keys: Seq<RankKey>, limit: usize, r: Seq<usize>) -> bool {
    &&& r.len() == if keys.len() < limit {
        keys.len()
    } else {
        limit as nat
    }
    &&& forall|a: int| 0 <= a < r.len() ==> #[trigger] r[a] < keys.len()
    &&& in_rank_order(keys, r)
    &&& excluded_after(keys, r, keys.len() as int)
}

/// The ranking is determined by the keys: two lists of positions that both
/// rank the first `limit` matches are the same list, so the same matches
/// are always returned in the same order.
pub proof fn lemma_ranked_top_unique(keys: Seq<RankKey>, limit: usize, r1: Seq<usize>, r2: Seq<usize>)
    requires
        ranked_top(keys, limit, r1),
        ranked_top(keys, limit, r2),
    ensures
        r1 == r2,
{
    if r1.len() > 0 {
        lemma_ranked_top_position(keys, limit, r1, r2, r1.len() - 1);
    }
    assert(r1 =~= r2);
}

/// The positions up to index `a` of two rankings of the same keys agree.
proof fn lemma_ranked_top_position(keys: Seq<RankKey>, limit: usize, r1: Seq<usize>, r2: Seq<usize>, a: int)
    requires
        ranked_top(keys, limit, r1),
        ranked_top(keys, limit, r2),
        0 <= a < r1.len(),
    ensures
        forall|b: int| 0 <= b <= a ==> r1[b] == r2[b],
    decreases a,
{
    if a > 0 {
        lemma_ranked_top_position(keys, limit, r1, r2, a - 1);
    }
    let (x, y) = (r1[a] as int, r2[a] as int);
    lemma_not_ranked_later(keys, limit, r1, r2, a);
    lemma_not_ranked_later(keys, limit, r2, r1, a);
    assert(0 <= x < keys.len() && 0 <= y < keys.len());
    if x != y {
        lemma_comes_before_order(keys, x, y, y);
    }
}

/// Where two rankings agree before index `a`, the position at `a` of the
/// first does not come before the one of the second.
proof fn lemma_not_ranked_later(keys: Seq<RankKey>, limit: usize, r1: Seq<usize>, r2: Seq<usize>, a: int)
    requires
        ranked_top(keys, limit, r1),
        ranked_top(keys, limit, r2),
        0 <= a < r1.len(),
        forall|b: int| 0 <= b < a ==> r1[b] == r2[b],
    ensures
        !comes_before(keys, r1[a] as int, r2[a] as int),
{
    let x = r1[a];
    let y = r2[a] as int;
    assert(0 <= x < keys.len() && 0 <= y < keys.len());
    lemma_comes_before_order(keys, x as int, y, y);
    if r2.contains(x) {
        let b = choose|b: int| 0 <= b < r2.len() && r2[b] == x;
        if b < a {
            assert(r1[b] == r2[b]);
            assert(comes_before(keys, r1[b] as int, r1[a] as int));
        } else if b > a {
            assert(comes_before(keys, r2[a] as int, r2[b] as int));
        }
    } else {
        assert(comes_before(keys, r2[a] as int, x as int));
    }
}

} // verus!
