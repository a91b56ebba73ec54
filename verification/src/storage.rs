//! The key-value store under the vector store: string keys, byte values,
//! scans by key prefix in key order.

use std::sync::Arc;
use vstd::prelude::*;
use vstd::string::StringSliceAdditionalSpecFns;

use crate::model::{KeyValue, StoreConfig, StoreError, StoreStats};

verus! {

/// The embedded key-value store.
#[verifier::external_type_specification]
#[verifier::external_body]
pub struct ExFeoxStore(feoxdb::FeoxStore);

/// The builder of the key-value store.
#[verifier::external_type_specification]
#[verifier::external_body]
pub struct ExStoreBuilder(feoxdb::StoreBuilder);

/// `FeoxStore::builder`: a builder with the store's defaults.
#[verifier::external_body]
fn feox_builder() -> feoxdb::StoreBuilder {
    feoxdb::FeoxStore::builder()
}

/// The builder `b` set to persist to the file at `path`.
pub uninterp spec fn with_device_path(b: feoxdb::StoreBuilder, path: Seq<char>) -> feoxdb::StoreBuilder;

/// The builder `b` set to make a new file of `size` bytes.
pub uninterp spec fn with_file_size(b: feoxdb::StoreBuilder, size: u64) -> feoxdb::StoreBuilder;

/// The builder `b` set to the memory limit `limit`, in bytes.
pub uninterp spec fn with_max_memory(b: feoxdb::StoreBuilder, limit: usize) -> feoxdb::StoreBuilder;

/// The builder `b` set to no memory limit.
pub uninterp spec fn without_memory_limit(b: feoxdb::StoreBuilder) -> feoxdb::StoreBuilder;

/// `StoreBuilder::device_path`: the builder set to persist to this file
/// (it records the path and changes nothing else).
#[verifier::external_body]
fn builder_device_path(b: feoxdb::StoreBuilder, path: String) -> (r: feoxdb::StoreBuilder)
    ensures
        r == with_device_path(b, path@),
{
    b.device_path(path)
}

/// `StoreBuilder::file_size`: the builder set to this file size.
#[verifier::external_body]
fn builder_file_size(b: feoxdb::StoreBuilder, size: u64) -> (r: feoxdb::StoreBuilder)
    ensures
        r == with_file_size(b, size),
{
    b.file_size(size)
}

/// `StoreBuilder::max_memory`: the builder set to this memory limit.
#[verifier::external_body]
fn builder_max_memory(b: feoxdb::StoreBuilder, limit: usize) -> (r: feoxdb::StoreBuilder)
    ensures
        r == with_max_memory(b, limit),
{
    b.max_memory(limit)
}

/// `StoreBuilder::no_memory_limit`: the builder set to no memory limit.
#[verifier::external_body]
fn builder_no_memory_limit(b: feoxdb::StoreBuilder) -> (r: feoxdb::StoreBuilder)
    ensures
        r == without_memory_limit(b),
{
    b.no_memory_limit()
}

/// The builder `b` set as `config` asks: its file, if any, then its file
/// size, if any, then its memory limit, or no limit when it has none.
pub open spec fn configured(b: feoxdb::StoreBuilder, config: StoreConfig) -> feoxdb::StoreBuilder {
    let b1 = match config.device_path {
        Some(path) => with_device_path(b, path@),
        None => b,
    };
    let b2 = match config.file_size {
        Some(size) => with_file_size(b1, size),
        None => b1,
    };
    match config.max_memory {
        Some(limit) => with_max_memory(b2, limit),
        None => without_memory_limit(b2),
    }
}

/// Sets the builder `b` as `config` asks.
pub fn configure(b: feoxdb::StoreBuilder, config: StoreConfig) -> (r: feoxdb::StoreBuilder)
    ensures
        r == configured(b, config),
{
    let mut builder = b;
    match config.device_path {
        Some(path) => {
            builder = builder_device_path(builder, path);
        },
        None => {},
    }
    match config.file_size {
        Some(size) => {
            builder = builder_file_size(builder, size);
        },
        None => {},
    }
    match config.max_memory {
        Some(limit) => {
            builder = builder_max_memory(builder, limit);
        },
        None => {
            builder = builder_no_memory_limit(builder);
        },
    }
    builder
}

/// `StoreBuilder::build`: opens the store, or fails (a file that cannot be
/// opened or read, for one).
#[verifier::external_body]
fn builder_build(b: feoxdb::StoreBuilder) -> Result<feoxdb::FeoxStore, feoxdb::FeoxError> {
    b.build()
}

/// The longest key the key-value store takes, in bytes.
pub const MAX_STORE_KEY_BYTES: usize = 102400;

/// The longest value the key-value store takes, in bytes.
pub const MAX_STORE_VALUE_BYTES: usize = 4194304;

/// A key the key-value store refuses before looking at its records: empty,
/// or longer than its ceiling.
pub open spec fn store_key_refused(key: Seq<u8>) -> bool {
    key.len() == 0 || key.len() > MAX_STORE_KEY_BYTES
}

/// A value the key-value store refuses to write: empty, or longer than its
/// ceiling.
pub open spec fn store_value_refused(value: Seq<u8>) -> bool {
    value.len() == 0 || value.len() > MAX_STORE_VALUE_BYTES
}

/// `FeoxStore::insert`: stores `value` under `key`. It checks the sizes of
/// both first and fails on a refused key or value; otherwise what it
/// returns depends on what the store holds, which other handles change,
/// and is not stated.
#[verifier::external_body]
fn feox_insert(db: &feoxdb::FeoxStore, key: &[u8], value: &[u8]) -> (r: Result<bool, feoxdb::FeoxError>)
    ensures
        store_key_refused(key@) || store_value_refused(value@) ==> r is Err,
{
    db.insert(key, value)
}

/// `FeoxStore::get`, with `FeoxError::KeyNotFound` read as `None`: the value
/// under `key`. It checks the key's size first and fails on a refused key
/// with `InvalidKeySize`; otherwise the outcome depends on what the store
/// holds, which other handles change, and is not stated.
#[verifier::external_body]
fn feox_get(db: &feoxdb::FeoxStore, key: &[u8]) -> (r: Result<Option<Vec<u8>>, feoxdb::FeoxError>)
    ensures
        store_key_refused(key@) ==> r is Err,
{
    match db.get(key) {
        Ok(value) => Ok(Some(value)),
        Err(feoxdb::FeoxError::KeyNotFound) => Ok(None),
        Err(error) => Err(error),
    }
}

/// `FeoxStore::delete`, with `FeoxError::KeyNotFound` read as `false`:
/// removes `key`, true when it was there. It checks the key's size first
/// and fails on a refused key with `InvalidKeySize`; otherwise the outcome
/// depends on what the store holds and is not stated.
#[verifier::external_body]
fn feox_delete(db: &feoxdb::FeoxStore, key: &[u8]) -> (r: Result<bool, feoxdb::FeoxError>)
    ensures
        store_key_refused(key@) ==> r is Err,
{
    match db.delete(key) {
        Ok(()) => Ok(true),
        Err(feoxdb::FeoxError::KeyNotFound) => Ok(false),
        Err(error) => Err(error),
    }
}

/// `FeoxStore::len`: the number of records.
#[verifier::external_body]
fn feox_len(db: &feoxdb::FeoxStore) -> usize {
    db.len()
}

/// `FeoxStore::memory_usage`: the memory the records take, in bytes.
#[verifier::external_body]
fn feox_memory_usage(db: &feoxdb::FeoxStore) -> usize {
    db.memory_usage()
}

/// Byte strings in lexicographic order: `a` comes strictly before `b`.
pub open spec fn bytes_lt(a: Seq<u8>, b: Seq<u8>) -> bool
    decreases a.len(),
{
    if a.len() == 0 {
        b.len() > 0
    } else if b.len() == 0 {
        false
    } else if a[0] != b[0] {
        a[0] < b[0]
    } else {
        bytes_lt(a.drop_first(), b.drop_first())
    }
}

/// `a` comes before `b` or equals it.
pub open spec fn bytes_le(a: Seq<u8>, b: Seq<u8>) -> bool {
    a == b || bytes_lt(a, b)
}

/// `FeoxStore::range_query`: the records whose keys lie between `start` and
/// `end`, both included, at most `limit` of them, in ascending key order
/// (it walks the store's ordered index from `start` and stops past `end` or
/// at `limit`). It fails when a bound is longer than the key ceiling.
/// Which records there are depends on what the store holds.
#[verifier::external_body]
fn feox_range_query(db: &feoxdb::FeoxStore, start: &[u8], end: &[u8], limit: usize) -> (r: Result<
    Vec<(Vec<u8>, Vec<u8>)>,
    feoxdb::FeoxError,
>)
    ensures
        start@.len() > MAX_STORE_KEY_BYTES || end@.len() > MAX_STORE_KEY_BYTES ==> r is Err,
        r matches Ok(rows) ==> {
            &&& rows@.len() <= limit
            &&& forall|i: int|
                0 <= i < rows@.len() ==> bytes_le(start@, #[trigger] rows@[i].0@) && bytes_le(
                    rows@[i].0@,
                    end@,
                )
            &&& forall|i: int, j: int|
                0 <= i < j < rows@.len() ==> bytes_lt(#[trigger] rows@[i].0@, #[trigger] rows@[j].0@)
        },
{
    db.range_query(start, end, limit)
}

/// `String::from_utf8`: the string whose UTF-8 encoding is `bytes`, when
/// they are valid UTF-8.
#[verifier::external_body]
fn string_from_utf8(bytes: Vec<u8>) -> (r: Option<String>)
    ensures
        r is Some <==> vstd::utf8::valid_utf8(bytes@),
        r matches Some(s) ==> vstd::utf8::encode_utf8(s@) == bytes@,
{
    String::from_utf8(bytes).ok()
}

/// The bytes of a string's UTF-8 encoding.
pub open spec fn key_bytes(s: Seq<char>) -> Seq<u8> {
    vstd::utf8::encode_utf8(s)
}

/// `b` begins with `prefix`.
pub open spec fn starts_with(b: Seq<u8>, prefix: Seq<u8>) -> bool {
    prefix.len() <= b.len() && b.subrange(0, prefix.len() as int) == prefix
}

/// A call the library handed the key-value store, and what came back.
pub enum StoreCall {
    /// `insert` of `value` under `key`; `ok` when it succeeded.
    Put { key: Seq<u8>, value: Seq<u8>, ok: bool },
    /// `get` of `key`; `ok` when it succeeded, and the value found.
    Get { key: Seq<u8>, ok: bool, found: Option<Seq<u8>> },
    /// `delete` of `key`; `ok` when it succeeded, and whether a record was
    /// removed.
    Delete { key: Seq<u8>, ok: bool, removed: bool },
    /// A range query from `start` to `end` for at most `limit` rows; `ok`
    /// when it succeeded, and the rows it gave.
    Range { start: Seq<u8>, end: Seq<u8>, limit: usize, ok: bool, rows: Seq<(Seq<u8>, Seq<u8>)> },
}

/// The receipt of a call to the key-value store. Only the methods of
/// `Store` make one, as they hand the call on.
pub struct StoreReceipt {
    call: StoreCall,
}

impl StoreReceipt {
    /// The call this is the receipt of.
    pub closed spec fn call(self) -> StoreCall {
        self.call
    }
}

/// The bytes a `get` found, if it succeeded and found some.
pub open spec fn found_bytes(res: Result<Option<Vec<u8>>, StoreError>) -> Option<Seq<u8>> {
    match res {
        Ok(Some(v)) => Some(v@),
        _ => None,
    }
}

/// A handle to the key-value store; clones share the same store.
#[derive(Clone)]
pub struct Store {
    inner: Arc<feoxdb::FeoxStore>,
}

impl Store {
    /// Opens the store: in memory, or persisted to `device_path`; with the
    /// given memory limit, or none when it is absent. The builder's defaults
    /// are set by `configure`; whether the store opens depends on the
    /// machine (the file, the memory) and is not stated.
    pub fn open(config: StoreConfig) -> (r: Result<Store, StoreError>)
        ensures
            r matches Err(e) ==> e is Feox,
    {
        let builder = configure(feox_builder(), config);
        match builder_build(builder) {
            Ok(db) => Ok(Store { inner: Arc::new(db) }),
            Err(e) => Err(StoreError::Feox(e)),
        }
    }

    /// Stores `value` under `key`; true when the key was new. Fails on an
    /// empty or over-long key or value. Gives back the receipt of the call.
    pub fn put_bytes(&self, key: &str, value: &[u8]) -> (r: (Result<bool, StoreError>, Ghost<StoreReceipt>))
        ensures
            r.1@.call() == (StoreCall::Put { key: key_bytes(key@), value: value@, ok: r.0 is Ok }),
            store_key_refused(key_bytes(key@)) || store_value_refused(value@) ==> r.0 is Err,
            r.0 matches Err(e) ==> e is Feox,
    {
        let res = match feox_insert(&self.inner, key.as_bytes(), value) {
            Ok(b) => Ok(b),
            Err(e) => Err(StoreError::Feox(e)),
        };
        let ghost receipt = StoreReceipt {
            call: StoreCall::Put { key: key_bytes(key@), value: value@, ok: res is Ok },
        };
        (res, Ghost(receipt))
    }

    /// The value under `key`, `None` when there is none. Fails on an empty
    /// or over-long key. Gives back the receipt of the call.
    pub fn get_bytes(&self, key: &str) -> (r: (Result<Option<Vec<u8>>, StoreError>, Ghost<StoreReceipt>))
        ensures
            r.1@.call() == (StoreCall::Get { key: key_bytes(key@), ok: r.0 is Ok, found: found_bytes(r.0) }),
            store_key_refused(key_bytes(key@)) ==> r.0 is Err,
            r.0 matches Err(e) ==> e is Feox,
    {
        let res = match feox_get(&self.inner, key.as_bytes()) {
            Ok(found) => Ok(found),
            Err(e) => Err(StoreError::Feox(e)),
        };
        let ghost receipt = StoreReceipt {
            call: StoreCall::Get { key: key_bytes(key@), ok: res is Ok, found: found_bytes(res) },
        };
        (res, Ghost(receipt))
    }

    /// Removes `key`; true when it was there. Fails on an empty or over-long
    /// key. Gives back the receipt of the call.
    pub fn delete(&self, key: &str) -> (r: (Result<bool, StoreError>, Ghost<StoreReceipt>))
        ensures
            r.1@.call() == (StoreCall::Delete {
                key: key_bytes(key@),
                ok: r.0 is Ok,
                removed: r.0 == Ok::<bool, StoreError>(true),
            }),
            store_key_refused(key_bytes(key@)) ==> r.0 is Err,
            r.0 matches Err(e) ==> e is Feox,
    {
        let res = match feox_delete(&self.inner, key.as_bytes()) {
            Ok(was_there) => Ok(was_there),
            Err(e) => Err(StoreError::Feox(e)),
        };
        let ghost receipt = StoreReceipt {
            call: StoreCall::Delete {
                key: key_bytes(key@),
                ok: res is Ok,
                removed: res == Ok::<bool, StoreError>(true),
            },
        };
        (res, Ghost(receipt))
    }

    /// The first `limit` records whose keys start with `prefix`, in key
    /// order, with the receipt of the range query (none when `limit` is 0).
    pub fn list_prefix(&self, prefix: &str, limit: usize) -> (r: (
        Result<Vec<KeyValue>, StoreError>,
        Ghost<Option<StoreReceipt>>,
    ))
        ensures
            limit == 0 ==> r.1@ is None && (r.0 matches Ok(rows) && rows@.len() == 0),
            limit > 0 ==> r.1@ is Some && listing_of(r.1@->0, key_bytes(prefix@), None, limit, rows_view(r.0)),
            limit > 0 && prefix_too_long(key_bytes(prefix@)) ==> r.0 is Err,
            r.0 matches Ok(rows) ==> listed_in_order(rows@, key_bytes(prefix@), None, limit),
    {
        self.list_prefix_after(prefix, None, limit)
    }

    /// The first `limit` records whose keys start with `prefix` and come
    /// after `start_after`, in key order, with the receipt of the range
    /// query handed to the store (none when `limit` is 0). Fails with
    /// `InvalidKey` when such a stored key is not UTF-8.
    pub fn list_prefix_after(&self, prefix: &str, start_after: Option<&str>, limit: usize) -> (r: (
        Result<Vec<KeyValue>, StoreError>,
        Ghost<Option<StoreReceipt>>,
    ))
        ensures
            limit == 0 ==> r.1@ is None && (r.0 matches Ok(rows) && rows@.len() == 0),
            limit > 0 ==> r.1@ is Some && listing_of(
                r.1@->0,
                key_bytes(prefix@),
                after_bytes(start_after),
                limit,
                rows_view(r.0),
            ),
            limit > 0 && (prefix_too_long(key_bytes(prefix@)) || (start_after is Some
                && prefix_too_long(key_bytes(start_after->0@)))) ==> r.0 is Err,
            r.0 matches Ok(rows) ==> listed_in_order(rows@, key_bytes(prefix@), after_bytes(start_after), limit),
    {
        if limit == 0 {
            return (Ok(Vec::new()), Ghost(None));
        }
        let prefix_bytes = prefix.as_bytes();
        let mut start: Vec<u8> = match start_after {
            Some(key) => {
                let mut value = vstd::slice::slice_to_vec(key.as_bytes());
                value.push(0u8);
                value
            },
            None => vstd::slice::slice_to_vec(prefix_bytes),
        };
        let mut end: Vec<u8> = vstd::slice::slice_to_vec(prefix_bytes);
        end.push(0xffu8);
        let answer = feox_range_query(&self.inner, start.as_slice(), end.as_slice(), limit);
        let ghost got: Seq<(Seq<u8>, Seq<u8>)> = if answer is Ok {
            answer->Ok_0@.map_values(|p: (Vec<u8>, Vec<u8>)| (p.0@, p.1@))
        } else {
            Seq::empty()
        };
        let ghost receipt = StoreReceipt {
            call: StoreCall::Range { start: start@, end: end@, limit, ok: answer is Ok, rows: got },
        };
        let rows = match answer {
            Ok(rows) => rows,
            Err(e) => {
                return (Err(StoreError::Feox(e)), Ghost(Some(receipt)));
            },
        };
        let ghost all = rows@;
        let ghost vrows = all.map_values(|p: (Vec<u8>, Vec<u8>)| (p.0@, p.1@));
        let ghost pb = key_bytes(prefix@);
        assert(range_answer(vrows, start@, end@, limit));
        assert(vrows.take(0) =~= Seq::<(Seq<u8>, Seq<u8>)>::empty());
        let mut out: Vec<KeyValue> = Vec::new();
        let ghost mut picked: Seq<int> = Seq::empty();
        for row in it: rows.into_iter()
            invariant
                it.seq() == all,
                all.len() <= limit,
                prefix_bytes@ == key_bytes(prefix@),
                start@ == match start_after {
                    Some(a) => key_bytes(a@).push(0u8),
                    None => key_bytes(prefix@),
                },
                forall|k: int| 0 <= k < all.len() ==> bytes_le(start@, #[trigger] all[k].0@),
                forall|x: int, y: int| 0 <= x < y < all.len() ==> bytes_lt(#[trigger] all[x].0@, #[trigger] all[y].0@),
                out@.len() == picked.len(),
                out@.len() <= it.index(),
                forall|k: int| 0 <= k < picked.len() ==> 0 <= #[trigger] picked[k] < it.index(),
                forall|x: int, y: int| 0 <= x < y < picked.len() ==> #[trigger] picked[x] < #[trigger] picked[y],
                forall|k: int| 0 <= k < out@.len() ==> key_bytes(#[trigger] out@[k].key@) == all[picked[k]].0@
                    && starts_with(all[picked[k]].0@, key_bytes(prefix@)),
                vrows == all.map_values(|p: (Vec<u8>, Vec<u8>)| (p.0@, p.1@)),
                receipt.call() == (StoreCall::Range { start: start@, end: end@, limit, ok: true, rows: vrows }),
                pb == key_bytes(prefix@),
                range_answer(vrows, start@, end@, limit),
                start@ == scan_start(key_bytes(prefix@), after_bytes(start_after)),
                end@ == scan_end(key_bytes(prefix@)),
                out@.map_values(|kv: KeyValue| kv_bytes(kv)) == prefixed_rows(vrows.take(it.index() as int), pb),
        {
            let ghost at = it.index();
            let (key, value) = row;
            assert(key@ == all[at].0@);
            let ghost kb = key@;
            let ghost vb = value@;
            let ghost before = out@;
            assert(vrows.take(at + 1).drop_last() =~= vrows.take(at as int));
            assert(vrows.take(at + 1).last() == (kb, vb));
            let mut matches = key.len() >= prefix_bytes.len();
            if matches {
                let mut j: usize = 0;
                while j < prefix_bytes.len()
                    invariant
                        j <= prefix_bytes@.len(),
                        prefix_bytes@.len() <= key@.len(),
                        matches == forall|q: int| 0 <= q < j ==> key@[q] == prefix_bytes@[q],
                    decreases prefix_bytes@.len() - j,
                {
                    if key[j] != prefix_bytes[j] {
                        matches = false;
                    }
                    j = j + 1;
                }
                proof {
                    if matches {
                        assert(key@.subrange(0, prefix_bytes@.len() as int) =~= prefix_bytes@);
                    } else {
                        let q = choose|q: int| 0 <= q < prefix_bytes@.len() && key@[q] != prefix_bytes@[q];
                        assert(key@.subrange(0, prefix_bytes@.len() as int)[q] != prefix_bytes@[q]);
                    }
                }
            }
            assert(matches == starts_with(kb, pb));
            if matches {
                let converted = string_from_utf8(key);
                assert(converted is Some <==> vstd::utf8::valid_utf8(kb));
                match converted {
                    Some(k) => {
                        out.push(KeyValue { key: k, value });
                        proof {
                            picked = picked.push(at);
                            assert(out@.map_values(|kv: KeyValue| kv_bytes(kv)) =~= before.map_values(
                                |kv: KeyValue| kv_bytes(kv),
                            ).push((kb, vb)));
                        }
                    },
                    None => {
                        assert(at < vrows.len());
                        assert(vrows[at as int].0 == kb);
                        assert(!vstd::utf8::valid_utf8(kb));
                        assert(starts_with(vrows[at as int].0, key_bytes(prefix@)));
                        assert(exists|i: int|
                            0 <= i < vrows.len() && starts_with(#[trigger] vrows[i].0, key_bytes(prefix@))
                                && !vstd::utf8::valid_utf8(vrows[i].0));
                        assert(listing_of(
                            receipt,
                            key_bytes(prefix@),
                            after_bytes(start_after),
                            limit,
                            Err(StoreError::InvalidKey),
                        ));
                        return (Err(StoreError::InvalidKey), Ghost(Some(receipt)));
                    },
                }
            }
        }
        assert(vrows.take(vrows.len() as int) =~= vrows);
        proof {
            assert forall|i: int| 0 <= i < out@.len() implies starts_with(
                key_bytes(#[trigger] out@[i].key@),
                key_bytes(prefix@),
            ) by {}
            assert forall|i: int, j: int| 0 <= i < j < out@.len() implies bytes_lt(
                key_bytes(#[trigger] out@[i].key@),
                key_bytes(#[trigger] out@[j].key@),
            ) by {
                assert(picked[i] < picked[j]);
            }
            match start_after {
                Some(a) => {
                    assert forall|i: int| 0 <= i < out@.len() implies bytes_lt(
                        key_bytes(a@),
                        key_bytes(#[trigger] out@[i].key@),
                    ) by {
                        lemma_push_zero_lt(key_bytes(a@), all[picked[i]].0@);
                    }
                },
                None => {},
            }
        }
        assert(listing_of(receipt, key_bytes(prefix@), after_bytes(start_after), limit, Ok(out@)));
        (Ok(out), Ghost(Some(receipt)))
    }

    /// Counts of the store.
    pub fn stats(&self) -> (r: StoreStats) {
        StoreStats { records: feox_len(&self.inner), memory_bytes: feox_memory_usage(&self.inner) }
    }
}

/// A key that comes at or after `a` followed by a zero byte comes after `a`.
proof fn lemma_push_zero_lt(a: Seq<u8>, k: Seq<u8>)
    requires
        bytes_le(a.push(0u8), k),
    ensures
        bytes_lt(a, k),
    decreases a.len(),
{
    if a.len() > 0 && a[0] == k[0] {
        assert(a.push(0u8).drop_first() =~= a.drop_first().push(0u8));
        if a.push(0u8) == k {
            assert(a.drop_first().push(0u8) == k.drop_first());
        }
        lemma_push_zero_lt(a.drop_first(), k.drop_first());
    }
}

/// Where a scan of `prefix` starts: just after the key `after` when it is
/// given (the key followed by a zero byte), else at the prefix itself.
pub open spec fn scan_start(prefix: Seq<u8>, after: Option<Seq<u8>>) -> Seq<u8> {
    match after {
        Some(a) => a.push(0u8),
        None => prefix,
    }
}

/// Where a scan of `prefix` ends: the prefix followed by a 0xff byte.
pub open spec fn scan_end(prefix: Seq<u8>) -> Seq<u8> {
    prefix.push(0xffu8)
}

/// `rows` are what a range query from `start` to `end` may answer: at most
/// `limit` rows, each key within the bounds, in strictly ascending order.
pub open spec fn range_answer(rows: Seq<(Seq<u8>, Seq<u8>)>, start: Seq<u8>, end: Seq<u8>, limit: usize) -> bool {
    &&& rows.len() <= limit
    &&& forall|i: int| 0 <= i < rows.len() ==> bytes_le(start, #[trigger] rows[i].0) && bytes_le(rows[i].0, end)
    &&& forall|i: int, j: int| 0 <= i < j < rows.len() ==> bytes_lt(#[trigger] rows[i].0, #[trigger] rows[j].0)
}

/// The rows of `rows` whose keys start with `prefix`, in order.
pub open spec fn prefixed_rows(rows: Seq<(Seq<u8>, Seq<u8>)>, prefix: Seq<u8>) -> Seq<(Seq<u8>, Seq<u8>)>
    decreases rows.len(),
{
    if rows.len() == 0 {
        Seq::empty()
    } else {
        let rest = prefixed_rows(rows.drop_last(), prefix);
        if starts_with(rows.last().0, prefix) {
            rest.push(rows.last())
        } else {
            rest
        }
    }
}

/// A listed row as bytes: its key's UTF-8 encoding and its value.
pub open spec fn kv_bytes(kv: KeyValue) -> (Seq<u8>, Seq<u8>) {
    (key_bytes(kv.key@), kv.value@)
}

/// The cursor of a listing, as bytes.
pub open spec fn after_bytes(start_after: Option<&str>) -> Option<Seq<u8>> {
    match start_after {
        Some(a) => Some(key_bytes(a@)),
        None => None,
    }
}

/// A listing's result, its rows as a sequence.
pub open spec fn rows_view(res: Result<Vec<KeyValue>, StoreError>) -> Result<Seq<KeyValue>, StoreError> {
    match res {
        Ok(rows) => Ok(rows@),
        Err(e) => Err(e),
    }
}

/// `rc` is the receipt of the range query a listing of `prefix` after
/// `after` hands the store, and `res` is what the listing makes of its
/// answer: the query runs from `scan_start` to `scan_end` for `limit` rows;
/// a success keeps exactly the answer's rows under the prefix, in order,
/// each converted; a failed query gives the store's error; `InvalidKey`
/// comes from a row under the prefix whose key is not UTF-8.
pub open spec fn listing_of(
    rc: StoreReceipt,
    prefix: Seq<u8>,
    after: Option<Seq<u8>>,
    limit: usize,
    res: Result<Seq<KeyValue>, StoreError>,
) -> bool {
    match rc.call() {
        StoreCall::Range { start, end, limit: l, ok, rows } => {
            &&& start == scan_start(prefix, after)
            &&& end == scan_end(prefix)
            &&& l == limit
            &&& ok ==> range_answer(rows, start, end, limit)
            &&& res is Ok ==> ok && res->Ok_0.map_values(|kv: KeyValue| kv_bytes(kv)) == prefixed_rows(
                rows,
                prefix,
            )
            &&& res matches Err(StoreError::Feox(_)) ==> !ok
            &&& res matches Err(StoreError::InvalidKey) ==> ok && exists|i: int|
                0 <= i < rows.len() && starts_with(#[trigger] rows[i].0, prefix) && !vstd::utf8::valid_utf8(
                    rows[i].0,
                )
        },
        _ => false,
    }
}

/// A prefix or cursor too long for a scan: with the byte that ends its
/// range, it passes the key ceiling.
pub open spec fn prefix_too_long(k: Seq<u8>) -> bool {
    k.len() + 1 > MAX_STORE_KEY_BYTES
}

/// `rows` are at most `limit` records, in strictly ascending key order,
/// whose keys start with `prefix` and come after `after` when it is given.
pub open spec fn listed_in_order(rows: Seq<KeyValue>, prefix: Seq<u8>, after: Option<Seq<u8>>, limit: usize) -> bool {
    &&& rows.len() <= limit
    &&& forall|i: int| 0 <= i < rows.len() ==> starts_with(key_bytes(#[trigger] rows[i].key@), prefix)
    &&& forall|i: int, j: int|
        0 <= i < j < rows.len() ==> bytes_lt(key_bytes(#[trigger] rows[i].key@), key_bytes(#[trigger] rows[j].key@))
    &&& after matches Some(a) ==> forall|i: int| 0 <= i < rows.len() ==> bytes_lt(a, key_bytes(#[trigger] rows[i].key@))
}

} // verus!
