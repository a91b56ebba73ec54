//! The decisions of a query that come before any score is computed: which
//! inputs are refused, how many candidates an approximate search gathers,
//! and how a metadata filter compiled against a snapshot is answered.

use vstd::prelude::*;

use crate::codec::DecodedRecord;
use crate::filter::{metadata_matches_filter, spec_metadata_matches, CompiledMetadataFilter, VectorMetadata};
use crate::model::{is_invalid, VectorError};
use crate::store::{scope_accepted, values_accepted};
use crate::validation::{
    ann_candidate_limit, ann_ef_search, query_limit, segment_message, segment_refused,
    spec_ann_candidate_limit, spec_ann_ef_search, spec_query_limit, validate_metadata,
    validate_scope, validate_values, MAX_ANN_CANDIDATES, MAX_METADATA_BYTES, MAX_QUERY_RESULTS,
    MAX_VECTOR_DIMENSIONS,
};

verus! {

/// How many records a scan reads from the store at a time.
pub const QUERY_SCAN_BATCH: usize = 512;

/// A filtered approximate query whose filter accepts at most this many ids
/// is answered exactly from those ids.
pub const FILTER_EXACT_MAX_CANDIDATES: usize = 4096;

/// The first refusal of a query, in the order the inputs are checked: the
/// collection, the vector, the filter's size, then `top_k`.
pub open spec fn query_refusal(
    namespace: Seq<char>,
    index: Seq<char>,
    partition: Seq<char>,
    vector: Seq<u32>,
    filter_json_len: nat,
    top_k: Option<usize>,
) -> Option<Seq<char>> {
    if !scope_accepted(namespace, index, partition) {
        Some(
            segment_message(
                if segment_refused(namespace) {
                    "namespace"@
                } else if segment_refused(index) {
                    "index"@
                } else {
                    "partition"@
                },
            ),
        )
    } else if !(1 <= vector.len() <= MAX_VECTOR_DIMENSIONS) {
        Some("vector must contain 1 to 4096 dimensions"@)
    } else if !values_accepted(vector) {
        Some("vector values must be finite numbers"@)
    } else if filter_json_len > MAX_METADATA_BYTES {
        Some("metadata cannot exceed 16384 bytes"@)
    } else if !(1 <= spec_query_limit(top_k) <= MAX_QUERY_RESULTS) {
        Some("top_k must be between 1 and 100"@)
    } else {
        None
    }
}

/// Checks the inputs of a query, in order: the collection, the query
/// vector (given by the bits of its values), the size of the filter (given
/// as its JSON text), and `top_k`. Gives the number of results to return.
pub fn validate_query(
    namespace: &str,
    index: &str,
    partition: &str,
    vector: &[u32],
    filter_json: &[u8],
    top_k: Option<usize>,
) -> (r: Result<usize, VectorError>)
    ensures
        r is Ok <==> query_refusal(
            namespace@,
            index@,
            partition@,
            vector@,
            filter_json@.len(),
            top_k,
        ) is None,
        r matches Ok(limit) ==> limit == spec_query_limit(top_k),
        r matches Err(e) ==> is_invalid(
            e,
            query_refusal(namespace@, index@, partition@, vector@, filter_json@.len(), top_k)->0,
        ),
{
    validate_scope(namespace, index, partition)?;
    validate_values(vector)?;
    validate_metadata(filter_json)?;
    query_limit(top_k)
}

/// The candidate limit an approximate query asks for: the one given, else,
/// for a filtered query, 32 times the number of results and at least 256.
pub open spec fn spec_requested_candidates(
    candidate_limit: Option<usize>,
    filtered: bool,
    limit: usize,
) -> Option<usize> {
    match candidate_limit {
        Some(c) => Some(c),
        None => if filtered {
            Some(
                if limit * 32 >= 256 {
                    (limit * 32) as usize
                } else {
                    256
                },
            )
        } else {
            None
        },
    }
}

/// The number of candidates and the search breadth of an approximate query
/// for `limit` results: the candidate limit as asked (see
/// `spec_requested_candidates`), checked against `limit` and 10000; then the
/// breadth, checked against the candidate limit and 10000.
pub fn ann_search_limits(
    candidate_limit: Option<usize>,
    ef_search: Option<usize>,
    filtered: bool,
    limit: usize,
) -> (r: Result<(usize, usize), VectorError>)
    requires
        limit * 32 <= usize::MAX,
    ensures
        ({
            let cand = spec_ann_candidate_limit(
                spec_requested_candidates(candidate_limit, filtered, limit),
                limit,
            );
            &&& r is Ok <==> (limit <= cand <= MAX_ANN_CANDIDATES && cand <= spec_ann_ef_search(
                ef_search,
                cand as usize,
            ) <= MAX_ANN_CANDIDATES)
            &&& r matches Ok((c, e)) ==> c == cand && e == spec_ann_ef_search(ef_search, c)
            &&& !(limit <= cand <= MAX_ANN_CANDIDATES) ==> is_invalid(
                r->Err_0,
                "candidate_limit must be between top_k and 10000"@,
            )
            &&& limit <= cand <= MAX_ANN_CANDIDATES && r is Err ==> is_invalid(
                r->Err_0,
                "ef_search must be between candidate_limit and 10000"@,
            )
        }),
{
    let requested = match candidate_limit {
        Some(c) => Some(c),
        None => if filtered {
            let scaled = limit * 32;
            Some(
                if scaled >= 256 {
                    scaled
                } else {
                    256
                },
            )
        } else {
            None
        },
    };
    let candidates = ann_candidate_limit(requested, limit)?;
    let ef = ann_ef_search(ef_search, candidates)?;
    Ok((candidates, ef))
}

/// Whether a record read back from the store is a candidate of a query for
/// vectors of `dimensions` values: its vector has that many values and its
/// metadata (the record's text, read by the caller) matches the filter.
pub fn record_matches(
    record: &DecodedRecord,
    metadata: &VectorMetadata,
    dimensions: usize,
    filter: &VectorMetadata,
) -> (r: bool)
    ensures
        r == (record.values@.len() == dimensions && spec_metadata_matches(metadata@, filter@)),
{
    record.values.len() == dimensions && metadata_matches_filter(metadata, filter)
}

/// How a filtered approximate query is answered once its filter is
/// compiled against the snapshot's metadata index.
pub enum FilteredSearch<'a> {
    /// The filter accepts no record: the answer is empty.
    NoMatches,
    /// The filter accepts few enough ids to score each of them exactly.
    ExactIds(Vec<&'a str>),
    /// Search the approximate index, passing it the filter when `filtered`.
    Search { filtered: bool },
}

/// Decides how to answer an approximate query with the compiled filter:
/// no matches when it accepts nothing; for a non-empty filter estimated to
/// accept at most 4096 ids, those ids; otherwise a search of the index,
/// filtered unless the filter is empty or accepts everything.
pub fn plan_filtered_search<'a>(compiled: &CompiledMetadataFilter<'a>, has_filter: bool) -> (r:
    FilteredSearch<'a>)
    requires
        compiled.wf(),
    ensures
        compiled is Nothing ==> r is NoMatches,
        r is NoMatches ==> compiled is Nothing,
        !(compiled is Nothing) && has_filter && (compiled.spec_estimate() matches Some(e) && e
            <= FILTER_EXACT_MAX_CANDIDATES) ==> r is ExactIds,
        r matches FilteredSearch::ExactIds(v) ==> has_filter && compiled.lists_candidates(v@) && v@.len()
            <= FILTER_EXACT_MAX_CANDIDATES,
        r is Search ==> !(has_filter && (compiled.spec_estimate() matches Some(e) && e
            <= FILTER_EXACT_MAX_CANDIDATES)),
        r matches FilteredSearch::Search { filtered } ==> filtered == (has_filter && !(compiled is All)),
{
    if compiled.is_none() {
        return FilteredSearch::NoMatches;
    }
    if has_filter {
        match compiled.candidate_ids(FILTER_EXACT_MAX_CANDIDATES) {
            Some(ids) => {
                return FilteredSearch::ExactIds(ids);
            },
            None => {},
        }
    }
    let filtered = has_filter && !compiled.is_all();
    FilteredSearch::Search { filtered }
}

} // verus!
