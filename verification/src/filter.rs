//! Metadata filters: the operators `$eq`, `$in` and `$nin`, matched exactly
//! against a record's metadata, and compiled against an inverted index of
//! metadata tokens.

use vstd::prelude::*;

use crate::json::{json_eq, json_equal, json_quoted, json_string_literal, str_equal, JsonValue};
use vstd::string::*;
use vstd::hash_map::StringHashMap;
use std::collections::HashSet;

verus! {

/// The metadata of a record, or the filter of a query: entries of a JSON
/// object, in ascending key order, each key once.
pub type VectorMetadata = Vec<(String, JsonValue)>;

/// The value stored under `key`, if any: the first entry with that key.
pub open spec fn metadata_lookup(m: Seq<(String, JsonValue)>, key: Seq<char>) -> Option<JsonValue>
    decreases m.len(),
{
    if m.len() == 0 {
        None
    } else if m[0].0@ == key {
        Some(m[0].1)
    } else {
        metadata_lookup(m.drop_first(), key)
    }
}

/// `actual` holds `expected`: it equals it, or it is an array with an
/// element equal to it.
pub open spec fn spec_value_contains(actual: JsonValue, expected: JsonValue) -> bool {
    ||| json_eq(actual, expected)
    ||| (actual is Array && exists|i: int|
        0 <= i < actual->Array_0@.len() && #[trigger] json_eq(actual->Array_0@[i], expected))
}

/// Some element of `values` is held by `actual`.
pub open spec fn contains_any(actual: JsonValue, values: Seq<JsonValue>) -> bool {
    exists|i: int| 0 <= i < values.len() && #[trigger] spec_value_contains(actual, values[i])
}

/// One operator of a filter entry, applied to the value found under the
/// entry's key.
pub open spec fn operator_matches(actual: Option<JsonValue>, operator: Seq<char>, value: JsonValue) -> bool {
    if operator == "$eq"@ {
        actual is Some && spec_value_contains(actual->0, value)
    } else if operator == "$in"@ {
        value is Array && actual is Some && contains_any(actual->0, value->Array_0@)
    } else if operator == "$nin"@ {
        value is Array && (actual is None || !contains_any(actual->0, value->Array_0@))
    } else {
        false
    }
}

/// One filter entry, applied to the value found under its key: a value that
/// is not an object must be held by it; an object is a non-empty set of
/// operators that must all match.
pub open spec fn spec_value_matches_filter(actual: Option<JsonValue>, expected: JsonValue) -> bool {
    match expected {
        JsonValue::Object(ops) => ops@.len() > 0 && forall|i: int|
            0 <= i < ops@.len() ==> #[trigger] operator_matches(actual, ops@[i].0@, ops@[i].1),
        _ => actual is Some && spec_value_contains(actual->0, expected),
    }
}

/// A record's metadata matches a filter when every entry of the filter
/// matches the value under its key.
pub open spec fn spec_metadata_matches(metadata: Seq<(String, JsonValue)>, filter: Seq<(String, JsonValue)>) -> bool {
    forall|i: int|
        0 <= i < filter.len() ==> #[trigger] spec_value_matches_filter(
            metadata_lookup(metadata, filter[i].0@),
            filter[i].1,
        )
}

/// The value stored under `key` in `metadata`, if any.
pub fn metadata_get<'a>(metadata: &'a VectorMetadata, key: &str) -> (r: Option<&'a JsonValue>)
    ensures
        r matches Some(v) ==> metadata_lookup(metadata@, key@) == Some(*v),
        r is None ==> metadata_lookup(metadata@, key@) is None,
{
    let mut i: usize = 0;
    assert(metadata@.skip(0) =~= metadata@);
    while i < metadata.len()
        invariant
            i <= metadata@.len(),
            metadata_lookup(metadata@, key@) == metadata_lookup(metadata@.skip(i as int), key@),
        decreases metadata@.len() - i,
    {
        assert(metadata@.skip(i as int).drop_first() =~= metadata@.skip(i + 1));
        if str_equal(metadata[i].0.as_str(), key) {
            return Some(&metadata[i].1);
        }
        i = i + 1;
    }
    None
}

/// Whether `actual` holds `expected`.
pub fn value_contains(actual: &JsonValue, expected: &JsonValue) -> (r: bool)
    ensures
        r == spec_value_contains(*actual, *expected),
{
    if json_equal(actual, expected) {
        return true;
    }
    match actual {
        JsonValue::Array(values) => {
            let mut i: usize = 0;
            while i < values.len()
                invariant
                    *actual == JsonValue::Array(*values),
                    i <= values@.len(),
                    forall|j: int| 0 <= j < i ==> !json_eq(#[trigger] values@[j], *expected),
                decreases values@.len() - i,
            {
                if json_equal(&values[i], expected) {
                    assert(actual->Array_0@[i as int] == values@[i as int]);
                    return true;
                }
                i = i + 1;
            }
            false
        },
        _ => false,
    }
}

/// Whether some element of `values` is held by `actual`.
fn contains_any_of(actual: &JsonValue, values: &Vec<JsonValue>) -> (r: bool)
    ensures
        r == contains_any(*actual, values@),
{
    let mut i: usize = 0;
    while i < values.len()
        invariant
            i <= values@.len(),
            forall|j: int| 0 <= j < i ==> !spec_value_contains(*actual, #[trigger] values@[j]),
        decreases values@.len() - i,
    {
        if value_contains(actual, &values[i]) {
            return true;
        }
        i = i + 1;
    }
    false
}

/// Whether one operator of a filter entry matches.
fn operator_matches_value(actual: Option<&JsonValue>, operator: &str, value: &JsonValue) -> (r: bool)
    ensures
        r == operator_matches(
            match actual {
                Some(a) => Some(*a),
                None => None,
            },
            operator@,
            *value,
        ),
{
    if str_equal(operator, "$eq") {
        match actual {
            Some(a) => value_contains(a, value),
            None => false,
        }
    } else if str_equal(operator, "$in") {
        match value {
            JsonValue::Array(values) => match actual {
                Some(a) => contains_any_of(a, values),
                None => false,
            },
            _ => false,
        }
    } else if str_equal(operator, "$nin") {
        match value {
            JsonValue::Array(values) => match actual {
                Some(a) => !contains_any_of(a, values),
                None => true,
            },
            _ => false,
        }
    } else {
        false
    }
}

/// Whether one filter entry matches the value found under its key.
pub fn value_matches_filter(actual: Option<&JsonValue>, expected: &JsonValue) -> (r: bool)
    ensures
        r == spec_value_matches_filter(
            match actual {
                Some(a) => Some(*a),
                None => None,
            },
            *expected,
        ),
{
    let ghost act = match actual {
        Some(a) => Some(*a),
        None => None,
    };
    match expected {
        JsonValue::Object(ops) => {
            if ops.len() == 0 {
                return false;
            }
            let mut i: usize = 0;
            while i < ops.len()
                invariant
                    *expected == JsonValue::Object(*ops),
                    i <= ops@.len(),
                    act == match actual {
                        Some(a) => Some(*a),
                        None => None,
                    },
                    forall|j: int|
                        0 <= j < i ==> #[trigger] operator_matches(act, ops@[j].0@, ops@[j].1),
                decreases ops@.len() - i,
            {
                if !operator_matches_value(actual, ops[i].0.as_str(), &ops[i].1) {
                    return false;
                }
                i = i + 1;
            }
            true
        },
        _ => match actual {
            Some(a) => value_contains(a, expected),
            None => false,
        },
    }
}

/// Whether a record's metadata matches a filter.
pub fn metadata_matches_filter(metadata: &VectorMetadata, filter: &VectorMetadata) -> (r: bool)
    ensures
        r == spec_metadata_matches(metadata@, filter@),
{
    let mut i: usize = 0;
    while i < filter.len()
        invariant
            i <= filter@.len(),
            forall|j: int|
                0 <= j < i ==> #[trigger] spec_value_matches_filter(
                    metadata_lookup(metadata@, filter@[j].0@),
                    filter@[j].1,
                ),
        decreases filter@.len() - i,
    {
        let actual = metadata_get(metadata, filter[i].0.as_str());
        if !value_matches_filter(actual, &filter[i].1) {
            return false;
        }
        i = i + 1;
    }
    true
}


/// The JSON text of a scalar (null, boolean, number or string); none for an
/// array or an object.
pub open spec fn scalar_text(v: JsonValue) -> Option<Seq<char>> {
    match v {
        JsonValue::Null => Some("null"@),
        JsonValue::Bool(b) => Some(
            if b {
                "true"@
            } else {
                "false"@
            },
        ),
        JsonValue::Number(t) => Some(t@),
        JsonValue::Str(s) => Some(json_quoted(s@)),
        _ => None,
    }
}

/// The index token of a scalar under a key: the key, U+001F, and the
/// scalar's JSON text.
pub open spec fn token_of(key: Seq<char>, text: Seq<char>) -> Seq<char> {
    key + seq!['\u{1f}'] + text
}

/// The token of a scalar under a key, if it is a scalar.
pub open spec fn spec_scalar_token(key: Seq<char>, v: JsonValue) -> Option<Seq<char>> {
    match scalar_text(v) {
        Some(t) => Some(token_of(key, t)),
        None => None,
    }
}

/// The tokens of the scalars among `values`, in order.
pub open spec fn element_tokens(key: Seq<char>, values: Seq<JsonValue>) -> Seq<Seq<char>>
    decreases values.len(),
{
    if values.len() == 0 {
        Seq::empty()
    } else {
        element_tokens(key, values.drop_last()) + match spec_scalar_token(key, values.last()) {
            Some(t) => seq![t],
            None => Seq::empty(),
        }
    }
}

/// The tokens of a value under a key: those of its scalar elements for an
/// array, its own for a scalar, none for an object.
pub open spec fn spec_value_tokens(key: Seq<char>, v: JsonValue) -> Seq<Seq<char>> {
    match v {
        JsonValue::Array(vs) => element_tokens(key, vs@),
        _ => match spec_scalar_token(key, v) {
            Some(t) => seq![t],
            None => Seq::empty(),
        },
    }
}

/// The characters of each string.
pub open spec fn string_views(v: Seq<String>) -> Seq<Seq<char>> {
    v.map_values(|s: String| s@)
}

/// The token of a scalar under a key; none for an array or an object.
pub fn scalar_token(key: &str, value: &JsonValue) -> (r: Option<String>)
    ensures
        match r {
            Some(t) => spec_scalar_token(key@, *value) == Some(t@),
            None => spec_scalar_token(key@, *value) is None,
        },
{
    let text: String = match value {
        JsonValue::Null => String::from_str("null"),
        JsonValue::Bool(b) => if *b {
            String::from_str("true")
        } else {
            String::from_str("false")
        },
        JsonValue::Number(t) => t.clone(),
        JsonValue::Str(s) => match json_string_literal(s.as_str()) {
            Ok(t) => t,
            Err(_) => {
                return None;
            },
        },
        _ => {
            return None;
        },
    };
    let mut token = String::from_str(key);
    token.append("\u{1f}");
    token.append(text.as_str());
    proof {
        reveal_strlit("\u{1f}");
        assert("\u{1f}"@ =~= seq!['\u{1f}']);
    }
    Some(token)
}

/// The tokens of a value under a key.
pub fn value_tokens(key: &str, value: &JsonValue) -> (r: Vec<String>)
    ensures
        string_views(r@) == spec_value_tokens(key@, *value),
{
    match value {
        JsonValue::Array(values) => {
            let mut out: Vec<String> = Vec::new();
            let mut i: usize = 0;
            while i < values.len()
                invariant
                    i <= values@.len(),
                    string_views(out@) == element_tokens(key@, values@.take(i as int)),
                decreases values@.len() - i,
            {
                assert(values@.take(i + 1).drop_last() =~= values@.take(i as int));
                let t = scalar_token(key, &values[i]);
                match t {
                    Some(t) => {
                        out.push(t);
                    },
                    None => {},
                }
                assert(string_views(out@) =~= element_tokens(key@, values@.take(i + 1)));
                i = i + 1;
            }
            assert(values@.take(values@.len() as int) =~= values@);
            out
        },
        _ => {
            let mut out: Vec<String> = Vec::new();
            match scalar_token(key, value) {
                Some(t) => {
                    out.push(t);
                },
                None => {},
            }
            assert(string_views(out@) =~= spec_value_tokens(key@, *value));
            out
        },
    }
}


/// The ids that carry one token, as positions in the index's list of ids.
pub struct FacetSet {
    members: Vec<usize>,
    lookup: HashSet<usize>,
}

impl FacetSet {
    /// The positions listed once each, and the lookup set holds exactly them.
    pub closed spec fn wf(&self) -> bool {
        &&& self.members@.no_duplicates()
        &&& self.members@.to_set() == self.lookup@
    }

    /// Every position is below `n`.
    pub closed spec fn bounded(&self, n: nat) -> bool {
        forall|i: int| 0 <= i < self.members@.len() ==> #[trigger] self.members@[i] < n
    }

    /// Whether position `p` is in the set.
    pub closed spec fn has(&self, p: usize) -> bool {
        self.lookup@.contains(p)
    }

    /// The number of positions in the set.
    pub closed spec fn size(&self) -> nat {
        self.members@.len()
    }

    fn new() -> (r: FacetSet)
        ensures
            r.wf(),
            r.bounded(0),
            forall|p: usize| !r.has(p),
    {
        let r = FacetSet { members: Vec::new(), lookup: HashSet::new() };
        assert(r.members@.to_set() =~= r.lookup@);
        r
    }

    fn insert(&mut self, p: usize, Ghost(n): Ghost<nat>)
        requires
            old(self).wf(),
            old(self).bounded(n),
            p < n,
        ensures
            final(self).wf(),
            final(self).bounded(n),
            forall|q: usize| #[trigger] final(self).has(q) == (old(self).has(q) || q == p),
    {
        broadcast use vstd::std_specs::hash::group_hash_axioms;

        if !self.lookup.contains(&p) {
            proof {
                assert(!self.members@.contains(p));
            }
            self.lookup.insert(p);
            self.members.push(p);
            proof {
                old(self).members@.lemma_push_to_set_commute(p);
                assert(self.members@ == old(self).members@.push(p));
                assert forall|i: int, j: int|
                    0 <= i < self.members@.len() && 0 <= j < self.members@.len() && i != j implies self.members@[i]
                    != self.members@[j] by {
                    if i == self.members@.len() - 1 {
                        assert(old(self).members@.contains(self.members@[j]));
                    } else if j == self.members@.len() - 1 {
                        assert(old(self).members@.contains(self.members@[i]));
                    }
                }
            }
        }
    }

    fn contains(&self, p: usize) -> (r: bool)
        requires
            self.wf(),
        ensures
            r == self.has(p),
    {
        broadcast use vstd::std_specs::hash::group_hash_axioms;

        self.lookup.contains(&p)
    }

    fn len(&self) -> (r: usize)
        ensures
            r == self.size(),
    {
        self.members.len()
    }
}

/// `t` is a token of some entry of `m`.
pub open spec fn is_metadata_token(m: Seq<(String, JsonValue)>, t: Seq<char>) -> bool {
    exists|i: int| 0 <= i < m.len() && #[trigger] spec_value_tokens(m[i].0@, m[i].1).contains(t)
}

/// An inverted index from metadata tokens to the ids of the records whose
/// metadata carries them.
pub struct MetadataFilterIndex {
    ids: Vec<String>,
    id_slots: StringHashMap<usize>,
    facets: StringHashMap<usize>,
    sets: Vec<FacetSet>,
}

impl MetadataFilterIndex {
    /// The ids are listed once each and their positions recorded; each
    /// token has a set of its own, of positions of listed ids.
    pub closed spec fn wf(&self) -> bool {
        &&& forall|k: Seq<char>| #[trigger]
            self.id_slots@.contains_key(k) ==> self.id_slots@[k] < self.ids@.len()
                && self.ids@[self.id_slots@[k] as int]@ == k
        &&& forall|i: int|
            0 <= i < self.ids@.len() ==> self.id_slots@.contains_key(#[trigger] self.ids@[i]@)
                && self.id_slots@[self.ids@[i]@] == i
        &&& forall|t: Seq<char>| #[trigger]
            self.facets@.contains_key(t) ==> self.facets@[t] < self.sets@.len()
        &&& forall|t1: Seq<char>, t2: Seq<char>|
            #![trigger self.facets@[t1], self.facets@[t2]]
            self.facets@.contains_key(t1) && self.facets@.contains_key(t2) && t1 != t2
                ==> self.facets@[t1] != self.facets@[t2]
        &&& forall|i: int|
            0 <= i < self.sets@.len() ==> #[trigger] self.sets@[i].wf() && self.sets@[i].bounded(
                self.ids@.len(),
            )
    }

    /// The position of each inserted id.
    pub closed spec fn slots(&self) -> Map<Seq<char>, usize> {
        self.id_slots@
    }

    /// The same tokens, each with the same set, and no fewer ids.
    pub closed spec fn same_facets(&self, other: MetadataFilterIndex) -> bool {
        &&& self.facets@ == other.facets@
        &&& self.sets@ == other.sets@
        &&& self.ids@.len() >= other.ids@.len()
    }

    /// The number of inserted ids.
    pub closed spec fn num_ids(&self) -> nat {
        self.ids@.len()
    }

    /// The id that position `p` names.
    pub closed spec fn id_at(&self, p: usize) -> Seq<char> {
        self.ids@[p as int]@
    }

    /// In a well-formed index, the ids with a position are the inserted
    /// ones, and each position is below the number of ids and names its id.
    pub proof fn lemma_slots(&self)
        requires
            self.wf(),
        ensures
            forall|id: Seq<char>| #[trigger] self.slots().contains_key(id) == self.contains_id(id),
            forall|id: Seq<char>|
                #[trigger] self.contains_id(id) ==> self.slots()[id] < self.num_ids() && self.id_at(
                    self.slots()[id],
                ) == id,
    {
    }

    /// Whether `id` has been inserted.
    pub closed spec fn contains_id(&self, id: Seq<char>) -> bool {
        self.id_slots@.contains_key(id)
    }

    /// Whether some inserted metadata carried token `t`.
    pub closed spec fn has_token(&self, t: Seq<char>) -> bool {
        self.facets@.contains_key(t)
    }

    /// Whether the metadata inserted for `id` carried token `t`.
    pub closed spec fn facet_contains(&self, t: Seq<char>, id: Seq<char>) -> bool {
        &&& self.facets@.contains_key(t)
        &&& self.id_slots@.contains_key(id)
        &&& self.sets@[self.facets@[t] as int].has(self.id_slots@[id])
    }

    /// A token set of a record needs the token and the record.
    pub proof fn lemma_facet_implies(&self, t: Seq<char>, id: Seq<char>)
        ensures
            self.facet_contains(t, id) ==> self.has_token(t) && self.contains_id(id),
    {
    }

    /// The number of ids in the set of token `t`; 0 for a token that no
    /// inserted metadata carried.
    pub closed spec fn token_count(&self, t: Seq<char>) -> nat {
        if self.facets@.contains_key(t) {
            self.sets@[self.facets@[t] as int].size()
        } else {
            0
        }
    }

    /// The ids whose inserted metadata carried token `t`.
    pub open spec fn ids_with_token(&self, t: Seq<char>) -> Set<Seq<char>> {
        Set::new(|x: Seq<char>| self.facet_contains(t, x))
    }

    /// A token's set holds each id that carries the token once: its size is
    /// the number of inserted ids whose metadata carried the token.
    pub proof fn lemma_token_count(&self, t: Seq<char>)
        requires
            self.wf(),
        ensures
            self.ids_with_token(t).finite(),
            self.token_count(t) == self.ids_with_token(t).len(),
    {
        if self.facets@.contains_key(t) {
            let k = self.facets@[t] as int;
            assert(k < self.sets@.len());
            assert(self.sets@[k].wf());
            let set = self.sets@[k];
            assert(set.bounded(self.ids@.len()));
            let m = set.members@;
            let idseq = m.map_values(|p: usize| self.ids@[p as int]@);
            assert forall|a: int, b: int|
                0 <= a < idseq.len() && 0 <= b < idseq.len() && a != b implies idseq[a] != idseq[b] by {
                assert(m[a] < self.ids@.len());
                assert(m[b] < self.ids@.len());
                assert(self.id_slots@[self.ids@[m[a] as int]@] == m[a]);
                assert(self.id_slots@[self.ids@[m[b] as int]@] == m[b]);
            }
            idseq.unique_seq_to_set();
            assert forall|x: Seq<char>| idseq.to_set().contains(x) == self.facet_contains(t, x) by {
                if idseq.to_set().contains(x) {
                    let a = choose|a: int| 0 <= a < idseq.len() && idseq[a] == x;
                    assert(m[a] < self.ids@.len());
                    assert(m.to_set().contains(m[a]));
                }
                if self.facet_contains(t, x) {
                    let p = self.id_slots@[x];
                    assert(m.to_set().contains(p));
                    let a = choose|a: int| 0 <= a < m.len() && m[a] == p;
                    assert(idseq[a] == self.ids@[p as int]@);
                }
            }
            assert(idseq.to_set() =~= self.ids_with_token(t));
        } else {
            assert(self.ids_with_token(t) =~= Set::empty());
        }
    }

    /// An empty index.
    pub fn new() -> (r: MetadataFilterIndex)
        ensures
            r.wf(),
            forall|id: Seq<char>| !r.contains_id(id),
            forall|t: Seq<char>| !r.has_token(t),
    {
        MetadataFilterIndex {
            ids: Vec::new(),
            id_slots: StringHashMap::new(),
            facets: StringHashMap::new(),
            sets: Vec::new(),
        }
    }

    /// Adds position `p` to the set of `token`, which is created if new.
    fn add_token(&mut self, token: String, p: usize)
        requires
            old(self).wf(),
            p < old(self).ids@.len(),
        ensures
            final(self).wf(),
            final(self).ids@ == old(self).ids@,
            final(self).id_slots@ == old(self).id_slots@,
            forall|t: Seq<char>| #[trigger]
                final(self).has_token(t) == (old(self).has_token(t) || t == token@),
            forall|t: Seq<char>, x: Seq<char>| #[trigger]
                final(self).facet_contains(t, x) == (old(self).facet_contains(t, x) || (t == token@
                    && x == old(self).ids@[p as int]@)),
    {
        let n = Ghost(self.ids@.len());
        match self.facets.get(token.as_str()) {
            Some(k) => {
                let k = *k;
                assert(self.sets@[k as int].wf());
                self.sets[k].insert(p, n);
                proof {
                    assert forall|i: int| 0 <= i < self.sets@.len() implies #[trigger] self.sets@[i].wf()
                        && self.sets@[i].bounded(self.ids@.len()) by {
                        if i != k {
                            assert(old(self).sets@[i].wf());
                        }
                    }
                    assert forall|t: Seq<char>, x: Seq<char>| #[trigger]
                        self.facet_contains(t, x) == (old(self).facet_contains(t, x) || (t == token@
                            && x == old(self).ids@[p as int]@)) by {
                        if self.facets@.contains_key(t) && t != token@ {
                            assert(self.facets@[t] != self.facets@[token@]);
                        }
                        if self.id_slots@.contains_key(x) && x == old(self).ids@[p as int]@ {
                            assert(self.id_slots@[x] == p);
                        }
                        if self.id_slots@.contains_key(x) && self.id_slots@[x] == p {
                            assert(self.ids@[p as int]@ == x);
                        }
                    }
                }
            },
            None => {
                let mut set = FacetSet::new();
                set.insert(p, n);
                let k = self.sets.len();
                self.sets.push(set);
                self.facets.insert(token, k);
                proof {
                    assert forall|i: int| 0 <= i < self.sets@.len() implies #[trigger] self.sets@[i].wf()
                        && self.sets@[i].bounded(self.ids@.len()) by {
                        if i != k {
                            assert(old(self).sets@[i].wf());
                        }
                    }
                    assert forall|t1: Seq<char>, t2: Seq<char>|
                        self.facets@.contains_key(t1) && self.facets@.contains_key(t2) && t1 != t2
                            implies #[trigger] self.facets@[t1] != #[trigger] self.facets@[t2] by {
                        if t1 != token@ && t2 != token@ {
                            assert(old(self).facets@[t1] != old(self).facets@[t2]);
                        } else if t1 != token@ {
                            assert(old(self).facets@.contains_key(t1));
                        } else {
                            assert(old(self).facets@.contains_key(t2));
                        }
                    }
                    assert forall|t: Seq<char>, x: Seq<char>| #[trigger]
                        self.facet_contains(t, x) == (old(self).facet_contains(t, x) || (t == token@
                            && x == old(self).ids@[p as int]@)) by {
                        if self.facets@.contains_key(t) && t != token@ {
                            assert(old(self).facets@.contains_key(t));
                            assert(old(self).facets@[t] < old(self).sets@.len());
                        }
                        if self.id_slots@.contains_key(x) && x == old(self).ids@[p as int]@ {
                            assert(self.id_slots@[x] == p);
                        }
                        if self.id_slots@.contains_key(x) && self.id_slots@[x] == p {
                            assert(self.ids@[p as int]@ == x);
                        }
                    }
                }
            },
        }
    }

    /// Adds a record's id and the tokens of its metadata.
    pub fn insert(&mut self, id: &str, metadata: &VectorMetadata)
        requires
            old(self).wf(),
        ensures
            final(self).wf(),
            forall|x: Seq<char>| #[trigger]
                final(self).contains_id(x) == (old(self).contains_id(x) || x == id@),
            forall|t: Seq<char>| #[trigger]
                final(self).has_token(t) == (old(self).has_token(t) || is_metadata_token(metadata@, t)),
            forall|t: Seq<char>, x: Seq<char>| #[trigger]
                final(self).facet_contains(t, x) == (old(self).facet_contains(t, x) || (x == id@
                    && is_metadata_token(metadata@, t))),
    {
        let p = self.intern_id(id);
        let ghost mid = *self;
        assert(self.id_slots@.contains_key(id@));
        assert(forall|t: Seq<char>, x: Seq<char>| #[trigger] mid.facet_contains(t, x) == old(self).facet_contains(t, x)) by {
            assert forall|t: Seq<char>, x: Seq<char>| #[trigger] mid.facet_contains(t, x) == old(self).facet_contains(t, x) by {
                if old(self).id_slots@.contains_key(x) && old(self).facets@.contains_key(t) {
                    assert(old(self).sets@[old(self).facets@[t] as int].wf());
                }
                if mid.id_slots@.contains_key(x) && mid.facets@.contains_key(t) && !old(self).id_slots@.contains_key(x) {
                    let k = old(self).facets@[t] as int;
                    assert(old(self).sets@[k].wf());
                    assert(x == id@);
                    assert(old(self).sets@[k].bounded(old(self).ids@.len()));
                    if old(self).sets@[k].members@.contains(p) {
                        let j = choose|j: int| 0 <= j < old(self).sets@[k].members@.len() && old(self).sets@[k].members@[j] == p;
                        assert(old(self).sets@[k].members@[j] < old(self).ids@.len());
                    }
                    assert(!old(self).sets@[k].members@.to_set().contains(p));
                }
            }
        }
        let mut i: usize = 0;
        while i < metadata.len()
            invariant
                self.wf(),
                i <= metadata@.len(),
                p < self.ids@.len(),
                self.ids@[p as int]@ == id@,
                self.id_slots@ == mid.id_slots@,
                forall|x: Seq<char>| #[trigger]
                    mid.contains_id(x) == (old(self).contains_id(x) || x == id@),
                forall|t: Seq<char>, x: Seq<char>| #[trigger] mid.facet_contains(t, x) == old(self).facet_contains(t, x),
                forall|t: Seq<char>| mid.has_token(t) == old(self).has_token(t),
                forall|t: Seq<char>| #[trigger]
                    self.has_token(t) == (mid.has_token(t) || exists|j: int|
                        0 <= j < i && #[trigger] spec_value_tokens(metadata@[j].0@, metadata@[j].1).contains(t)),
                forall|t: Seq<char>, x: Seq<char>| #[trigger]
                    self.facet_contains(t, x) == (mid.facet_contains(t, x) || (x == id@ && exists|j: int|
                        0 <= j < i && #[trigger] spec_value_tokens(metadata@[j].0@, metadata@[j].1).contains(t))),
            decreases metadata@.len() - i,
        {
            let tokens = value_tokens(metadata[i].0.as_str(), &metadata[i].1);
            let ghost toks = spec_value_tokens(metadata@[i as int].0@, metadata@[i as int].1);
            let ghost before = *self;
            let mut k: usize = 0;
            while k < tokens.len()
                invariant
                    self.wf(),
                    k <= tokens@.len(),
                    string_views(tokens@) == toks,
                    p < self.ids@.len(),
                    self.ids@[p as int]@ == id@,
                    self.ids@ == before.ids@,
                    self.id_slots@ == before.id_slots@,
                    forall|t: Seq<char>| #[trigger]
                        self.has_token(t) == (before.has_token(t) || toks.take(k as int).contains(t)),
                    forall|t: Seq<char>, x: Seq<char>| #[trigger]
                        self.facet_contains(t, x) == (before.facet_contains(t, x) || (x == id@
                            && toks.take(k as int).contains(t))),
                decreases tokens@.len() - k,
            {
                let token = tokens[k].clone();
                proof {
                    assert(token@ == toks[k as int]);
                    let tk1 = toks.take(k + 1);
                    let tk = toks.take(k as int);
                    assert forall|t: Seq<char>| tk1.contains(t) == (tk.contains(t) || t == toks[k as int]) by {
                        if tk1.contains(t) {
                            let j = choose|j: int| 0 <= j < tk1.len() && #[trigger] tk1[j] == t;
                            if j < k {
                                assert(tk[j] == t);
                            }
                        }
                        if tk.contains(t) {
                            let j = choose|j: int| 0 <= j < tk.len() && #[trigger] tk[j] == t;
                            assert(tk1[j] == t);
                        }
                        if t == toks[k as int] {
                            assert(tk1[k as int] == t);
                        }
                    }
                }
                self.add_token(token, p);
                k = k + 1;
            }
            proof {
                assert(toks.take(tokens@.len() as int) =~= toks);
                assert forall|t: Seq<char>| (exists|j: int|
                        0 <= j < i + 1 && #[trigger] spec_value_tokens(metadata@[j].0@, metadata@[j].1).contains(t))
                    == ((exists|j: int|
                        0 <= j < i && #[trigger] spec_value_tokens(metadata@[j].0@, metadata@[j].1).contains(t)) || toks.contains(t)) by {
                }
            }
            i = i + 1;
        }
    }

    /// The position of `id`, added to the list if it is new.
    pub fn intern_id(&mut self, id: &str) -> (r: usize)
        requires
            old(self).wf(),
        ensures
            final(self).wf(),
            final(self).slots() == old(self).slots().insert(id@, r),
            !old(self).contains_id(id@) ==> r == old(self).num_ids(),
            old(self).contains_id(id@) ==> r == old(self).slots()[id@],
            old(self).contains_id(id@) ==> *final(self) == *old(self),
            !old(self).contains_id(id@) ==> final(self).num_ids() == old(self).num_ids() + 1,
            r < final(self).num_ids(),
            final(self).id_at(r) == id@,
            final(self).same_facets(*old(self)),
            forall|x: Seq<char>| #[trigger]
                final(self).contains_id(x) == (old(self).contains_id(x) || x == id@),
    {
        match self.id_slots.get(id) {
            Some(p) => {
                let p = *p;
                assert(self.id_slots@.insert(id@, p) =~= self.id_slots@);
                return p;
            },
            None => {},
        }
        let p = self.ids.len();
        self.ids.push(id.to_string());
        self.id_slots.insert(id.to_string(), p);
        proof {
            assert(self.ids@[p as int]@ == id@);
            assert forall|i: int| 0 <= i < self.sets@.len() implies #[trigger] self.sets@[i].wf()
                && self.sets@[i].bounded(self.ids@.len()) by {
                assert(old(self).sets@[i].wf());
                assert(self.sets@[i].bounded(self.ids@.len()));
            }
            assert forall|i: int|
                0 <= i < self.ids@.len() implies self.id_slots@.contains_key(
                #[trigger] self.ids@[i]@,
            ) && self.id_slots@[self.ids@[i]@] == i by {
                if i < p {
                    assert(old(self).ids@[i] == self.ids@[i]);
                    assert(old(self).id_slots@.contains_key(old(self).ids@[i]@));
                }
            }
        }
        p
    }
}


/// `id` carries one of the tokens of `value` under `key`.
pub open spec fn spec_include_accepts(
    index: MetadataFilterIndex,
    key: Seq<char>,
    value: JsonValue,
    id: Seq<char>,
) -> bool {
    exists|j: int|
        0 <= j < spec_value_tokens(key, value).len() && #[trigger] index.facet_contains(
            spec_value_tokens(key, value)[j],
            id,
        )
}

/// `id` carries a token of one of `values` under `key`.
pub open spec fn spec_any_accepts(
    index: MetadataFilterIndex,
    key: Seq<char>,
    values: Seq<JsonValue>,
    id: Seq<char>,
) -> bool {
    exists|e: int| 0 <= e < values.len() && #[trigger] spec_include_accepts(index, key, values[e], id)
}

/// Some token of `value` under `key` is one the index knows.
pub open spec fn value_hit(index: MetadataFilterIndex, key: Seq<char>, value: JsonValue) -> bool {
    exists|j: int|
        0 <= j < spec_value_tokens(key, value).len() && #[trigger] index.has_token(
            spec_value_tokens(key, value)[j],
        )
}

/// Some token of one of `values` under `key` is one the index knows.
pub open spec fn values_hit(index: MetadataFilterIndex, key: Seq<char>, values: Seq<JsonValue>) -> bool {
    exists|e: int| 0 <= e < values.len() && #[trigger] value_hit(index, key, values[e])
}

/// The token counts of `toks` added up.
pub open spec fn token_sum(index: MetadataFilterIndex, toks: Seq<Seq<char>>) -> nat
    decreases toks.len(),
{
    if toks.len() == 0 {
        0
    } else {
        token_sum(index, toks.drop_last()) + index.token_count(toks.last())
    }
}

/// The token counts of the tokens of `value` under `key` added up.
pub open spec fn value_weight(index: MetadataFilterIndex, key: Seq<char>, value: JsonValue) -> nat {
    token_sum(index, spec_value_tokens(key, value))
}

/// The token counts of the tokens of each of `values` under `key` added up.
pub open spec fn values_weight(index: MetadataFilterIndex, key: Seq<char>, values: Seq<JsonValue>) -> nat
    decreases values.len(),
{
    if values.len() == 0 {
        0
    } else {
        values_weight(index, key, values.drop_last()) + value_weight(index, key, values.last())
    }
}

/// The weights of the groups an operator adds: one for `$eq` and `$in`.
pub open spec fn operator_groups(index: MetadataFilterIndex, key: Seq<char>, operator: Seq<char>, value: JsonValue) -> Seq<nat> {
    if operator == "$eq"@ {
        seq![value_weight(index, key, value)]
    } else if operator == "$in"@ {
        seq![values_weight(index, key, value->Array_0@)]
    } else {
        Seq::empty()
    }
}

/// The weights of the groups a list of operators adds, in order.
pub open spec fn ops_groups(index: MetadataFilterIndex, key: Seq<char>, ops: Seq<(String, JsonValue)>) -> Seq<nat>
    decreases ops.len(),
{
    if ops.len() == 0 {
        Seq::empty()
    } else {
        ops_groups(index, key, ops.drop_last()) + operator_groups(index, key, ops.last().0@, ops.last().1)
    }
}

/// The weights of the groups a filter entry adds: one for a value, those of
/// its operators for an object.
pub open spec fn entry_groups(index: MetadataFilterIndex, key: Seq<char>, expected: JsonValue) -> Seq<nat> {
    match expected {
        JsonValue::Object(ops) => ops_groups(index, key, ops@),
        _ => seq![value_weight(index, key, expected)],
    }
}

/// The weights of the groups of a filter, entry by entry.
pub open spec fn filter_groups(index: MetadataFilterIndex, filter: Seq<(String, JsonValue)>) -> Seq<nat>
    decreases filter.len(),
{
    if filter.len() == 0 {
        Seq::empty()
    } else {
        filter_groups(index, filter.drop_last()) + entry_groups(index, filter.last().0@, filter.last().1)
    }
}

/// The weight of each group: the sizes of its sets added up.
pub closed spec fn group_weights(includes: Seq<AnySet>) -> Seq<nat> {
    includes.map_values(|a: AnySet| sum_sizes(a.sets@))
}

/// An operator compiles into a plan: `$eq` of a value with a known token,
/// `$in` of an array with a known token, `$nin` of an array.
pub open spec fn operator_compiles(
    index: MetadataFilterIndex,
    key: Seq<char>,
    operator: Seq<char>,
    value: JsonValue,
) -> bool {
    if operator == "$eq"@ {
        value_hit(index, key, value)
    } else if operator == "$in"@ {
        value is Array && values_hit(index, key, value->Array_0@)
    } else if operator == "$nin"@ {
        value is Array
    } else {
        false
    }
}

/// A compiled operator adds a part to the plan: a group for `$eq` and
/// `$in`, excluded sets for a `$nin` with a known token.
pub open spec fn operator_adds_part(
    index: MetadataFilterIndex,
    key: Seq<char>,
    operator: Seq<char>,
    value: JsonValue,
) -> bool {
    operator == "$eq"@ || operator == "$in"@ || (value is Array && values_hit(
        index,
        key,
        value->Array_0@,
    ))
}

/// A filter entry compiles: a value with a known token, or a non-empty
/// object of operators that all compile. An entry that does not compile
/// accepts no id, and makes the compiled filter `Nothing`.
pub open spec fn entry_compiles(index: MetadataFilterIndex, key: Seq<char>, expected: JsonValue) -> bool {
    match expected {
        JsonValue::Object(ops) => ops@.len() > 0 && forall|j: int|
            0 <= j < ops@.len() ==> #[trigger] operator_compiles(index, key, ops@[j].0@, ops@[j].1),
        _ => value_hit(index, key, expected),
    }
}

/// A compiled entry adds a part to the plan: it is a value, or one of its
/// operators adds one. When no entry does, the compiled filter is `All`.
pub open spec fn entry_adds_parts(index: MetadataFilterIndex, key: Seq<char>, expected: JsonValue) -> bool {
    match expected {
        JsonValue::Object(ops) => exists|j: int|
            0 <= j < ops@.len() && #[trigger] operator_adds_part(index, key, ops@[j].0@, ops@[j].1),
        _ => true,
    }
}

/// One operator of a filter entry, as the index answers it.
pub open spec fn spec_operator_accepts(
    index: MetadataFilterIndex,
    key: Seq<char>,
    operator: Seq<char>,
    value: JsonValue,
    id: Seq<char>,
) -> bool {
    if operator == "$eq"@ {
        spec_include_accepts(index, key, value, id)
    } else if operator == "$in"@ {
        value is Array && spec_any_accepts(index, key, value->Array_0@, id)
    } else if operator == "$nin"@ {
        value is Array && !spec_any_accepts(index, key, value->Array_0@, id)
    } else {
        false
    }
}

/// One filter entry, as the index answers it.
pub open spec fn spec_entry_accepts(
    index: MetadataFilterIndex,
    key: Seq<char>,
    expected: JsonValue,
    id: Seq<char>,
) -> bool {
    match expected {
        JsonValue::Object(ops) => ops@.len() > 0 && forall|j: int|
            0 <= j < ops@.len() ==> #[trigger] spec_operator_accepts(
                index,
                key,
                ops@[j].0@,
                ops@[j].1,
                id,
            ),
        _ => spec_include_accepts(index, key, expected, id),
    }
}

/// A filter, as the index answers it: every entry accepts the id.
pub open spec fn spec_filter_accepts(
    index: MetadataFilterIndex,
    filter: Seq<(String, JsonValue)>,
    id: Seq<char>,
) -> bool {
    forall|i: int|
        0 <= i < filter.len() ==> #[trigger] spec_entry_accepts(index, filter[i].0@, filter[i].1, id)
}

impl Default for MetadataFilterIndex {
    /// An index of no records.
    fn default() -> (r: MetadataFilterIndex)
        ensures
            r.wf(),
            forall|id: Seq<char>| !r.contains_id(id),
            forall|t: Seq<char>| !r.has_token(t),
    {
        MetadataFilterIndex::new()
    }
}

/// A group of token sets of which at least one must hold an id.
pub struct AnySet<'a> {
    sets: Vec<&'a FacetSet>,
}

/// A compiled filter over an index: the groups that must each hold an id,
/// and the sets that must not.
pub struct MetadataFilterPlan<'a> {
    index: &'a MetadataFilterIndex,
    includes: Vec<AnySet<'a>>,
    excludes: Vec<&'a FacetSet>,
}

/// A filter compiled against an index.
pub enum CompiledMetadataFilter<'a> {
    /// Every id is accepted.
    All,
    /// No id is accepted.
    Nothing,
    Plan(MetadataFilterPlan<'a>),
}

impl MetadataFilterIndex {
    /// Whether `s` holds the position of `id`.
    pub closed spec fn set_has_id(&self, s: FacetSet, id: Seq<char>) -> bool {
        self.id_slots@.contains_key(id) && s.has(self.id_slots@[id])
    }

    /// `s` is one of this index's sets.
    pub closed spec fn owns_set(&self, s: FacetSet) -> bool {
        s.wf() && s.bounded(self.ids@.len())
    }
}

/// Some set of the group holds `id`.
pub closed spec fn any_set_has(index: MetadataFilterIndex, sets: Seq<&FacetSet>, id: Seq<char>) -> bool {
    exists|j: int| 0 <= j < sets.len() && #[trigger] index.set_has_id(*sets[j], id)
}

/// Every group holds `id` and no excluded set does.
pub closed spec fn parts_accept(
    index: MetadataFilterIndex,
    includes: Seq<AnySet>,
    excludes: Seq<&FacetSet>,
    id: Seq<char>,
) -> bool {
    &&& forall|i: int| 0 <= i < includes.len() ==> #[trigger] any_set_has(index, includes[i].sets@, id)
    &&& forall|e: int| 0 <= e < excludes.len() ==> !#[trigger] index.set_has_id(*excludes[e], id)
}

/// Every set named by the parts belongs to the index.
pub closed spec fn parts_owned(index: MetadataFilterIndex, includes: Seq<AnySet>, excludes: Seq<&FacetSet>) -> bool {
    &&& forall|i: int, j: int|
        0 <= i < includes.len() && 0 <= j < includes[i].sets@.len() ==> #[trigger] index.owns_set(
            *includes[i].sets@[j],
        )
    &&& forall|e: int| 0 <= e < excludes.len() ==> #[trigger] index.owns_set(*excludes[e])
    &&& forall|i: int| 0 <= i < includes.len() ==> #[trigger] includes[i].sets@.len() > 0
}

impl<'a> MetadataFilterPlan<'a> {
    /// The plan's index is well formed and owns every set of the plan.
    pub closed spec fn wf(&self) -> bool {
        &&& self.index.wf()
        &&& parts_owned(*self.index, self.includes@, self.excludes@)
    }

    /// The index the plan was compiled against.
    pub closed spec fn index_view(&self) -> MetadataFilterIndex {
        *self.index
    }

    /// Whether the plan accepts `id`.
    pub closed spec fn spec_accepts(&self, id: Seq<char>) -> bool {
        parts_accept(*self.index, self.includes@, self.excludes@, id)
    }
}

impl<'a> CompiledMetadataFilter<'a> {
    /// Whether the compiled filter accepts `id`.
    pub closed spec fn spec_accepts(&self, id: Seq<char>) -> bool {
        match self {
            CompiledMetadataFilter::All => true,
            CompiledMetadataFilter::Nothing => false,
            CompiledMetadataFilter::Plan(plan) => plan.spec_accepts(id),
        }
    }
}


/// Adding a set to a group adds exactly the ids it holds.
proof fn lemma_any_set_has_push(index: MetadataFilterIndex, sets: Seq<&FacetSet>, s: &FacetSet, id: Seq<char>)
    ensures
        any_set_has(index, sets.push(s), id) == (any_set_has(index, sets, id) || index.set_has_id(
            *s,
            id,
        )),
{
    let pushed = sets.push(s);
    if any_set_has(index, sets, id) {
        let j = choose|j: int| 0 <= j < sets.len() && #[trigger] index.set_has_id(*sets[j], id);
        assert(pushed[j] == sets[j]);
    }
    if index.set_has_id(*s, id) {
        assert(pushed[sets.len() as int] == s);
    }
    if any_set_has(index, pushed, id) {
        let j = choose|j: int| 0 <= j < pushed.len() && #[trigger] index.set_has_id(*pushed[j], id);
        if j < sets.len() {
            assert(pushed[j] == sets[j]);
        }
    }
}

impl MetadataFilterIndex {
    /// Appends the sets of the tokens of `value` under `key` that the index
    /// knows: afterwards the new sets hold exactly the ids that carry one of
    /// those tokens.
    fn collect_value_sets<'a>(&'a self, key: &str, value: &JsonValue, out: &mut Vec<&'a FacetSet>)
        requires
            self.wf(),
        ensures
            final(out)@.len() >= old(out)@.len(),
            final(out)@.subrange(0, old(out)@.len() as int) == old(out)@,
            forall|j: int| old(out)@.len() <= j < final(out)@.len() ==> #[trigger] self.owns_set(*final(out)@[j]),
            forall|id: Seq<char>| #[trigger]
                any_set_has(*self, final(out)@, id) == (any_set_has(*self, old(out)@, id)
                    || spec_include_accepts(*self, key@, *value, id)),
            (final(out)@.len() > old(out)@.len()) == value_hit(*self, key@, *value),
            sum_sizes(final(out)@) == sum_sizes(old(out)@) + value_weight(*self, key@, *value),
    {
        let tokens = value_tokens(key, value);
        let ghost toks = spec_value_tokens(key@, *value);
        let ghost start = out@;
        let mut k: usize = 0;
        while k < tokens.len()
            invariant
                self.wf(),
                k <= tokens@.len(),
                string_views(tokens@) == toks,
                out@.len() >= start.len(),
                out@.subrange(0, start.len() as int) == start,
                forall|j: int| start.len() <= j < out@.len() ==> #[trigger] self.owns_set(*out@[j]),
                forall|id: Seq<char>| #[trigger]
                    any_set_has(*self, out@, id) == (any_set_has(*self, start, id) || exists|j: int|
                        0 <= j < k && #[trigger] self.facet_contains(toks[j], id)),
                (out@.len() > start.len()) == exists|j: int| 0 <= j < k && #[trigger] self.has_token(toks[j]),
                sum_sizes(out@) == sum_sizes(start) + token_sum(*self, toks.take(k as int)),
            decreases tokens@.len() - k,
        {
            assert(tokens@[k as int]@ == toks[k as int]);
            assert(toks.take(k + 1).drop_last() =~= toks.take(k as int));
            assert(toks.take(k + 1).last() == toks[k as int]);
            match self.facets.get(tokens[k].as_str()) {
                Some(slot) => {
                    let ghost before = out@;
                    assert(self.sets@[*slot as int].wf());
                    out.push(&self.sets[*slot]);
                    proof {
                        assert(out@.drop_last() =~= before);
                        assert(self.token_count(toks[k as int]) == self.sets@[*slot as int].size());
                        assert(out@.subrange(0, start.len() as int) =~= before.subrange(0, start.len() as int));
                        assert forall|id: Seq<char>| #[trigger]
                            any_set_has(*self, out@, id) == (any_set_has(*self, start, id) || exists|j: int|
                                0 <= j < k + 1 && #[trigger] self.facet_contains(toks[j], id)) by {
                            lemma_any_set_has_push(*self, before, &self.sets@[*slot as int], id);
                            if self.facet_contains(toks[k as int], id) {
                                assert(self.set_has_id(self.sets@[*slot as int], id));
                            }
                        }
                    }
                },
                None => {
                    proof {
                        assert forall|id: Seq<char>| #[trigger]
                            any_set_has(*self, out@, id) == (any_set_has(*self, start, id) || exists|j: int|
                                0 <= j < k + 1 && #[trigger] self.facet_contains(toks[j], id)) by {
                            assert(!self.facet_contains(toks[k as int], id));
                        }
                        assert(!self.has_token(toks[k as int]));
                    }
                },
            }
            proof {
                if self.has_token(toks[k as int]) {
                    assert(out@.len() > start.len());
                }
            }
            k = k + 1;
        }
        assert(toks.take(tokens@.len() as int) =~= toks);
    }
}

impl MetadataFilterIndex {
    /// Appends the sets of the tokens of each of `values` under `key`.
    fn collect_values_sets<'a>(&'a self, key: &str, values: &Vec<JsonValue>, out: &mut Vec<&'a FacetSet>)
        requires
            self.wf(),
        ensures
            final(out)@.len() >= old(out)@.len(),
            final(out)@.subrange(0, old(out)@.len() as int) == old(out)@,
            forall|j: int| old(out)@.len() <= j < final(out)@.len() ==> #[trigger] self.owns_set(*final(out)@[j]),
            forall|id: Seq<char>| #[trigger]
                any_set_has(*self, final(out)@, id) == (any_set_has(*self, old(out)@, id)
                    || spec_any_accepts(*self, key@, values@, id)),
            (final(out)@.len() > old(out)@.len()) == values_hit(*self, key@, values@),
            sum_sizes(final(out)@) == sum_sizes(old(out)@) + values_weight(*self, key@, values@),
    {
        let ghost start = out@;
        let mut e: usize = 0;
        while e < values.len()
            invariant
                self.wf(),
                e <= values@.len(),
                out@.len() >= start.len(),
                out@.subrange(0, start.len() as int) == start,
                forall|j: int| start.len() <= j < out@.len() ==> #[trigger] self.owns_set(*out@[j]),
                forall|id: Seq<char>| #[trigger]
                    any_set_has(*self, out@, id) == (any_set_has(*self, start, id) || exists|f: int|
                        0 <= f < e && #[trigger] spec_include_accepts(*self, key@, values@[f], id)),
                (out@.len() > start.len()) == exists|f: int| 0 <= f < e && #[trigger] value_hit(*self, key@, values@[f]),
                sum_sizes(out@) == sum_sizes(start) + values_weight(*self, key@, values@.take(e as int)),
            decreases values@.len() - e,
        {
            assert(values@.take(e + 1).drop_last() =~= values@.take(e as int));
            assert(values@.take(e + 1).last() == values@[e as int]);
            let ghost before = out@;
            self.collect_value_sets(key, &values[e], out);
            proof {
                if value_hit(*self, key@, values@[e as int]) {
                    assert(out@.len() > start.len());
                }
                assert(out@.subrange(0, start.len() as int) =~= out@.subrange(0, before.len() as int).subrange(0, start.len() as int));
                assert forall|j: int| start.len() <= j < out@.len() implies #[trigger] self.owns_set(*out@[j]) by {
                    if j < before.len() {
                        assert(out@[j] == out@.subrange(0, before.len() as int)[j]);
                        assert(self.owns_set(*before[j]));
                    }
                }
            }
            e = e + 1;
        }
        assert(values@.take(values@.len() as int) =~= values@);
    }

    /// Adds a group for `value` under `key`; false, adding nothing, when the
    /// index knows none of its tokens.
    fn push_include<'a>(&'a self, key: &str, value: &JsonValue, includes: &mut Vec<AnySet<'a>>) -> (r: bool)
        requires
            self.wf(),
        ensures
            r ==> final(includes)@.len() == old(includes)@.len() + 1,
            !r ==> final(includes)@ == old(includes)@,
            final(includes)@.subrange(0, old(includes)@.len() as int) == old(includes)@,
            r ==> final(includes)@.last().sets@.len() > 0,
            r ==> forall|j: int| 0 <= j < final(includes)@.last().sets@.len() ==> #[trigger] self.owns_set(
                *final(includes)@.last().sets@[j],
            ),
            r ==> forall|id: Seq<char>| #[trigger]
                any_set_has(*self, final(includes)@.last().sets@, id) == spec_include_accepts(
                    *self,
                    key@,
                    *value,
                    id,
                ),
            !r ==> forall|id: Seq<char>| !#[trigger] spec_include_accepts(*self, key@, *value, id),
            r == value_hit(*self, key@, *value),
            r ==> group_weights(final(includes)@) == group_weights(old(includes)@).push(
                value_weight(*self, key@, *value),
            ),
    {
        let mut sets: Vec<&'a FacetSet> = Vec::new();
        self.collect_value_sets(key, value, &mut sets);
        if sets.len() == 0 {
            assert(includes@.subrange(0, includes@.len() as int) =~= includes@);
            assert forall|id: Seq<char>| !#[trigger] spec_include_accepts(*self, key@, *value, id) by {
                assert(!any_set_has(*self, sets@, id));
                assert(!any_set_has(*self, Seq::<&FacetSet>::empty(), id));
            }
            return false;
        }
        includes.push(AnySet { sets });
        assert(includes@.subrange(0, old(includes)@.len() as int) =~= old(includes)@);
        assert(group_weights(includes@) =~= group_weights(old(includes)@).push(value_weight(*self, key@, *value)));
        true
    }

    /// Adds a group for the values of an array under `key`; false, adding
    /// nothing, when `value` is not an array or the index knows none of the
    /// tokens.
    fn push_include_any<'a>(&'a self, key: &str, value: &JsonValue, includes: &mut Vec<AnySet<'a>>) -> (r: bool)
        requires
            self.wf(),
        ensures
            r ==> value is Array,
            r ==> final(includes)@.len() == old(includes)@.len() + 1,
            !r ==> final(includes)@ == old(includes)@,
            final(includes)@.subrange(0, old(includes)@.len() as int) == old(includes)@,
            r ==> final(includes)@.last().sets@.len() > 0,
            r ==> forall|j: int| 0 <= j < final(includes)@.last().sets@.len() ==> #[trigger] self.owns_set(
                *final(includes)@.last().sets@[j],
            ),
            r ==> forall|id: Seq<char>| #[trigger]
                any_set_has(*self, final(includes)@.last().sets@, id) == spec_any_accepts(
                    *self,
                    key@,
                    value->Array_0@,
                    id,
                ),
            !r ==> forall|id: Seq<char>|
                !(value is Array && #[trigger] spec_any_accepts(*self, key@, value->Array_0@, id)),
            r == (value is Array && values_hit(*self, key@, value->Array_0@)),
            r ==> group_weights(final(includes)@) == group_weights(old(includes)@).push(
                values_weight(*self, key@, value->Array_0@),
            ),
    {
        match value {
            JsonValue::Array(values) => {
                let mut sets: Vec<&'a FacetSet> = Vec::new();
                self.collect_values_sets(key, values, &mut sets);
                if sets.len() == 0 {
                    assert(includes@.subrange(0, includes@.len() as int) =~= includes@);
                    assert forall|id: Seq<char>|
                        !(value is Array && #[trigger] spec_any_accepts(*self, key@, value->Array_0@, id)) by {
                        assert(!any_set_has(*self, sets@, id));
                        assert(!any_set_has(*self, Seq::<&FacetSet>::empty(), id));
                    }
                    return false;
                }
                includes.push(AnySet { sets });
                assert(includes@.subrange(0, old(includes)@.len() as int) =~= old(includes)@);
                assert(group_weights(includes@) =~= group_weights(old(includes)@).push(
                    values_weight(*self, key@, values@),
                ));
                true
            },
            _ => {
                assert(includes@.subrange(0, includes@.len() as int) =~= includes@);
                false
            },
        }
    }

    /// Adds the sets of the values of an array under `key` to the excluded
    /// sets; false when `value` is not an array.
    fn push_exclude_any<'a>(&'a self, key: &str, value: &JsonValue, excludes: &mut Vec<&'a FacetSet>) -> (r: bool)
        requires
            self.wf(),
        ensures
            r == value is Array,
            final(excludes)@.len() >= old(excludes)@.len(),
            final(excludes)@.subrange(0, old(excludes)@.len() as int) == old(excludes)@,
            forall|j: int| old(excludes)@.len() <= j < final(excludes)@.len() ==> #[trigger] self.owns_set(*final(excludes)@[j]),
            r ==> forall|id: Seq<char>| #[trigger]
                any_set_has(*self, final(excludes)@, id) == (any_set_has(*self, old(excludes)@, id)
                    || spec_any_accepts(*self, key@, value->Array_0@, id)),
            (final(excludes)@.len() > old(excludes)@.len()) == (value is Array && values_hit(
                *self,
                key@,
                value->Array_0@,
            )),
    {
        match value {
            JsonValue::Array(values) => {
                self.collect_values_sets(key, values, excludes);
                true
            },
            _ => {
                assert(excludes@.subrange(0, excludes@.len() as int) =~= excludes@);
                false
            },
        }
    }
}

/// The includes hold an id when every group does.
pub closed spec fn includes_accept(index: MetadataFilterIndex, includes: Seq<AnySet>, id: Seq<char>) -> bool {
    forall|i: int| 0 <= i < includes.len() ==> #[trigger] any_set_has(index, includes[i].sets@, id)
}

proof fn lemma_parts_split(index: MetadataFilterIndex, includes: Seq<AnySet>, excludes: Seq<&FacetSet>, id: Seq<char>)
    ensures
        parts_accept(index, includes, excludes, id) == (includes_accept(index, includes, id)
            && !any_set_has(index, excludes, id)),
{
}

proof fn lemma_includes_push(index: MetadataFilterIndex, includes: Seq<AnySet>, a: AnySet, id: Seq<char>)
    ensures
        includes_accept(index, includes.push(a), id) == (includes_accept(index, includes, id)
            && any_set_has(index, a.sets@, id)),
{
    let p = includes.push(a);
    if includes_accept(index, p, id) {
        assert forall|i: int| 0 <= i < includes.len() implies #[trigger] any_set_has(index, includes[i].sets@, id) by {
            assert(p[i] == includes[i]);
        }
        assert(p[includes.len() as int] == a);
    }
    if includes_accept(index, includes, id) && any_set_has(index, a.sets@, id) {
        assert forall|i: int| 0 <= i < p.len() implies #[trigger] any_set_has(index, p[i].sets@, id) by {
            if i < includes.len() {
                assert(p[i] == includes[i]);
            }
        }
    }
}

impl MetadataFilterIndex {
    /// Compiles one filter entry into the parts of a plan; false when the
    /// entry accepts no id.
    fn compile_filter_value<'a>(
        &'a self,
        key: &str,
        expected: &JsonValue,
        includes: &mut Vec<AnySet<'a>>,
        excludes: &mut Vec<&'a FacetSet>,
    ) -> (r: bool)
        requires
            self.wf(),
            parts_owned(*self, old(includes)@, old(excludes)@),
        ensures
            parts_owned(*self, final(includes)@, final(excludes)@),
            r ==> forall|id: Seq<char>| #[trigger]
                parts_accept(*self, final(includes)@, final(excludes)@, id) == (parts_accept(
                    *self,
                    old(includes)@,
                    old(excludes)@,
                    id,
                ) && spec_entry_accepts(*self, key@, *expected, id)),
            !r ==> forall|id: Seq<char>| !#[trigger] spec_entry_accepts(*self, key@, *expected, id),
            r == entry_compiles(*self, key@, *expected),
            final(includes)@.len() >= old(includes)@.len(),
            final(excludes)@.len() >= old(excludes)@.len(),
            r ==> ((final(includes)@.len() + final(excludes)@.len() > old(includes)@.len() + old(
                excludes,
            )@.len()) == entry_adds_parts(*self, key@, *expected)),
            r ==> group_weights(final(includes)@) == group_weights(old(includes)@) + entry_groups(
                *self,
                key@,
                *expected,
            ),
    {
        match expected {
            JsonValue::Object(ops) => {
                if ops.len() == 0 {
                    return false;
                }
                let ghost inc0 = includes@;
                let ghost exc0 = excludes@;
                let mut j: usize = 0;
                while j < ops.len()
                    invariant
                        self.wf(),
                        *expected == JsonValue::Object(*ops),
                        j <= ops@.len(),
                        parts_owned(*self, inc0, exc0),
                        parts_owned(*self, includes@, excludes@),
                        forall|id: Seq<char>| #[trigger]
                            parts_accept(*self, includes@, excludes@, id) == (parts_accept(*self, inc0, exc0, id)
                                && forall|q: int|
                                0 <= q < j ==> #[trigger] spec_operator_accepts(
                                    *self,
                                    key@,
                                    ops@[q].0@,
                                    ops@[q].1,
                                    id,
                                )),
                        forall|q: int| 0 <= q < j ==> #[trigger] operator_compiles(*self, key@, ops@[q].0@, ops@[q].1),
                        includes@.len() >= inc0.len(),
                        excludes@.len() >= exc0.len(),
                        inc0.len() == old(includes)@.len(),
                        exc0.len() == old(excludes)@.len(),
                        (includes@.len() + excludes@.len() > inc0.len() + exc0.len()) == exists|q: int|
                            0 <= q < j && #[trigger] operator_adds_part(*self, key@, ops@[q].0@, ops@[q].1),
                        inc0 == old(includes)@,
                        group_weights(includes@) == group_weights(inc0) + ops_groups(*self, key@, ops@.take(j as int)),
                    decreases ops@.len() - j,
                {
                    let op = ops[j].0.as_str();
                    let value = &ops[j].1;
                    let ghost inc1 = includes@;
                    let ghost exc1 = excludes@;
                    let ok = if str_equal(op, "$eq") {
                        self.push_include(key, value, includes)
                    } else if str_equal(op, "$in") {
                        self.push_include_any(key, value, includes)
                    } else if str_equal(op, "$nin") {
                        self.push_exclude_any(key, value, excludes)
                    } else {
                        false
                    };
                    proof {
                        assert forall|i: int, q: int|
                            0 <= i < includes@.len() && 0 <= q < includes@[i].sets@.len() implies #[trigger] self.owns_set(
                            *includes@[i].sets@[q],
                        ) by {
                            if i < inc1.len() {
                                assert(includes@[i] == includes@.subrange(0, inc1.len() as int)[i]);
                            }
                        }
                        assert forall|e: int| 0 <= e < excludes@.len() implies #[trigger] self.owns_set(*excludes@[e]) by {
                            if e < exc1.len() {
                                assert(excludes@[e] == excludes@.subrange(0, exc1.len() as int)[e]);
                            }
                        }
                        assert forall|i: int| 0 <= i < includes@.len() implies #[trigger] includes@[i].sets@.len() > 0 by {
                            if i < inc1.len() {
                                assert(includes@[i] == includes@.subrange(0, inc1.len() as int)[i]);
                            }
                        }
                    }
                    assert(ok == operator_compiles(*self, key@, ops@[j as int].0@, ops@[j as int].1));
                    if !ok {
                        proof {
                            assert forall|id: Seq<char>| !#[trigger] spec_entry_accepts(*self, key@, *expected, id) by {
                                assert(!spec_operator_accepts(*self, key@, ops@[j as int].0@, ops@[j as int].1, id));
                            }
                        }
                        return false;
                    }
                    proof {
                        let g = operator_groups(*self, key@, ops@[j as int].0@, ops@[j as int].1);
                        assert(ops@.take(j + 1).drop_last() =~= ops@.take(j as int));
                        assert(ops@.take(j + 1).last() == ops@[j as int]);
                        if ops@[j as int].0@ == "$eq"@ {
                            assert(group_weights(includes@) =~= group_weights(inc1) + g);
                        } else if ops@[j as int].0@ == "$in"@ {
                            assert(group_weights(includes@) =~= group_weights(inc1) + g);
                        } else {
                            assert(includes@ == inc1);
                            assert(group_weights(includes@) =~= group_weights(inc1) + g);
                        }
                        assert(group_weights(inc0) + ops_groups(*self, key@, ops@.take(j + 1)) =~= group_weights(inc0)
                            + ops_groups(*self, key@, ops@.take(j as int)) + g);
                    }
                    proof {
                        let adds = operator_adds_part(*self, key@, ops@[j as int].0@, ops@[j as int].1);
                        assert((includes@.len() + excludes@.len() > inc1.len() + exc1.len()) == adds);
                        if adds {
                            assert(exists|q: int|
                                0 <= q < j + 1 && #[trigger] operator_adds_part(*self, key@, ops@[q].0@, ops@[q].1));
                        }
                    }
                    proof {
                        assert forall|id: Seq<char>| #[trigger]
                            parts_accept(*self, includes@, excludes@, id) == (parts_accept(*self, inc1, exc1, id)
                                && spec_operator_accepts(*self, key@, ops@[j as int].0@, ops@[j as int].1, id)) by {
                            lemma_parts_split(*self, includes@, excludes@, id);
                            lemma_parts_split(*self, inc1, exc1, id);
                            if includes@.len() > inc1.len() {
                                assert(includes@ =~= inc1.push(includes@.last()));
                                lemma_includes_push(*self, inc1, includes@.last(), id);
                            } else {
                                assert(includes@ =~= inc1);
                            }
                            if excludes@.len() == exc1.len() {
                                assert(excludes@ =~= exc1);
                            }
                        }
                        assert forall|id: Seq<char>| #[trigger]
                            parts_accept(*self, includes@, excludes@, id) == (parts_accept(*self, inc0, exc0, id)
                                && forall|q: int|
                                0 <= q < j + 1 ==> #[trigger] spec_operator_accepts(
                                    *self,
                                    key@,
                                    ops@[q].0@,
                                    ops@[q].1,
                                    id,
                                )) by {
                            assert(parts_accept(*self, inc1, exc1, id) == (parts_accept(*self, inc0, exc0, id)
                                && forall|q: int|
                                0 <= q < j ==> #[trigger] spec_operator_accepts(
                                    *self,
                                    key@,
                                    ops@[q].0@,
                                    ops@[q].1,
                                    id,
                                )));
                        }
                    }
                    j = j + 1;
                }
                assert(ops@.take(ops@.len() as int) =~= ops@);
                true
            },
            _ => {
                let ghost inc1 = includes@;
                let ghost exc1 = excludes@;
                let ok = self.push_include(key, expected, includes);
                if !ok {
                    return false;
                }
                proof {
                    assert forall|i: int, q: int|
                        0 <= i < includes@.len() && 0 <= q < includes@[i].sets@.len() implies #[trigger] self.owns_set(
                        *includes@[i].sets@[q],
                    ) by {
                        if i < inc1.len() {
                            assert(includes@[i] == includes@.subrange(0, inc1.len() as int)[i]);
                        }
                    }
                    assert forall|i: int| 0 <= i < includes@.len() implies #[trigger] includes@[i].sets@.len() > 0 by {
                        if i < inc1.len() {
                            assert(includes@[i] == includes@.subrange(0, inc1.len() as int)[i]);
                        }
                    }
                    assert forall|id: Seq<char>| #[trigger]
                        parts_accept(*self, includes@, excludes@, id) == (parts_accept(*self, inc1, excludes@, id)
                            && spec_entry_accepts(*self, key@, *expected, id)) by {
                        lemma_parts_split(*self, includes@, excludes@, id);
                        lemma_parts_split(*self, inc1, excludes@, id);
                        assert(includes@ =~= inc1.push(includes@.last()));
                        lemma_includes_push(*self, inc1, includes@.last(), id);
                    }
                    assert(group_weights(includes@) =~= group_weights(inc1) + entry_groups(*self, key@, *expected));
                }
                true
            },
        }
    }
}

impl MetadataFilterIndex {
    /// Compiles a filter against the index: the result accepts exactly the
    /// ids that every entry of the filter accepts as the index answers it.
    pub fn compile<'a>(&'a self, filter: &VectorMetadata) -> (r: CompiledMetadataFilter<'a>)
        requires
            self.wf(),
        ensures
            forall|id: Seq<char>| #[trigger] r.spec_accepts(id) == spec_filter_accepts(*self, filter@, id),
            r.wf(),
            r matches CompiledMetadataFilter::Plan(plan) ==> plan.index_view() == *self,
            r is Nothing <==> exists|i: int|
                0 <= i < filter@.len() && !#[trigger] entry_compiles(*self, filter@[i].0@, filter@[i].1),
            r is All ==> forall|i: int|
                0 <= i < filter@.len() ==> #[trigger] entry_compiles(*self, filter@[i].0@, filter@[i].1)
                    && !entry_adds_parts(*self, filter@[i].0@, filter@[i].1),
            (forall|i: int|
                0 <= i < filter@.len() ==> #[trigger] entry_compiles(*self, filter@[i].0@, filter@[i].1)
                    && !entry_adds_parts(*self, filter@[i].0@, filter@[i].1)) ==> r is All,
            r matches CompiledMetadataFilter::Plan(plan) ==> plan.weights() == filter_groups(*self, filter@),
    {
        if filter.len() == 0 {
            return CompiledMetadataFilter::All;
        }
        let mut includes: Vec<AnySet<'a>> = Vec::new();
        let mut excludes: Vec<&'a FacetSet> = Vec::new();
        let mut i: usize = 0;
        while i < filter.len()
            invariant
                self.wf(),
                i <= filter@.len(),
                parts_owned(*self, includes@, excludes@),
                forall|id: Seq<char>| #[trigger]
                    parts_accept(*self, includes@, excludes@, id) == forall|k: int|
                        0 <= k < i ==> #[trigger] spec_entry_accepts(*self, filter@[k].0@, filter@[k].1, id),
                forall|k: int| 0 <= k < i ==> #[trigger] entry_compiles(*self, filter@[k].0@, filter@[k].1),
                (includes@.len() + excludes@.len() > 0) == exists|k: int|
                    0 <= k < i && #[trigger] entry_adds_parts(*self, filter@[k].0@, filter@[k].1),
                group_weights(includes@) == filter_groups(*self, filter@.take(i as int)),
            decreases filter@.len() - i,
        {
            assert(filter@.take(i + 1).drop_last() =~= filter@.take(i as int));
            assert(filter@.take(i + 1).last() == filter@[i as int]);
            let ghost ilen = includes@.len() + excludes@.len();
            let ok = self.compile_filter_value(filter[i].0.as_str(), &filter[i].1, &mut includes, &mut excludes);
            proof {
                if ok && entry_adds_parts(*self, filter@[i as int].0@, filter@[i as int].1) {
                    assert(exists|k: int|
                        0 <= k < i + 1 && #[trigger] entry_adds_parts(*self, filter@[k].0@, filter@[k].1));
                }
            }
            if !ok {
                proof {
                    assert forall|id: Seq<char>| #[trigger] CompiledMetadataFilter::<'a>::Nothing.spec_accepts(id)
                        == spec_filter_accepts(*self, filter@, id) by {
                        assert(!spec_entry_accepts(*self, filter@[i as int].0@, filter@[i as int].1, id));
                    }
                }
                return CompiledMetadataFilter::Nothing;
            }
            i = i + 1;
        }
        if includes.len() == 0 && excludes.len() == 0 {
            proof {
                assert forall|id: Seq<char>| #[trigger] CompiledMetadataFilter::<'a>::All.spec_accepts(id)
                    == spec_filter_accepts(*self, filter@, id) by {
                    assert(parts_accept(*self, includes@, excludes@, id));
                }
            }
            return CompiledMetadataFilter::All;
        }
        proof {
            assert(i == filter@.len());
            assert(includes@.len() + excludes@.len() > 0);
            assert(exists|k: int| 0 <= k < i && #[trigger] entry_adds_parts(*self, filter@[k].0@, filter@[k].1));
            let k = choose|k: int| 0 <= k < filter@.len() && #[trigger] entry_adds_parts(*self, filter@[k].0@, filter@[k].1);
            assert(entry_adds_parts(*self, filter@[k].0@, filter@[k].1));
            assert(entry_compiles(*self, filter@[k].0@, filter@[k].1));
        }
        assert(filter@.take(filter@.len() as int) =~= filter@);
        let plan = MetadataFilterPlan { index: self, includes, excludes };
        proof {
            assert forall|id: Seq<char>| #[trigger] plan.spec_accepts(id) == spec_filter_accepts(*self, filter@, id) by {
                assert(parts_accept(*self, plan.includes@, plan.excludes@, id) == spec_filter_accepts(*self, filter@, id));
            }
        }
        CompiledMetadataFilter::Plan(plan)
    }
}

/// The total size of a group's sets.
pub open spec fn sum_sizes(sets: Seq<&FacetSet>) -> nat
    decreases sets.len(),
{
    if sets.len() == 0 {
        0
    } else {
        sum_sizes(sets.drop_last()) + sets.last().size()
    }
}

/// A total size as a `usize`, the largest one when it does not fit.
pub open spec fn capped(n: nat) -> usize {
    if n <= usize::MAX {
        n as usize
    } else {
        usize::MAX
    }
}

/// The least element of a sequence of naturals; 0 when it is empty.
pub open spec fn least(s: Seq<nat>) -> nat
    decreases s.len(),
{
    if s.len() == 0 {
        0
    } else if s.len() == 1 {
        s[0]
    } else {
        let m = least(s.drop_last());
        if s.last() < m {
            s.last()
        } else {
            m
        }
    }
}

proof fn lemma_least(s: Seq<nat>)
    requires
        s.len() > 0,
    ensures
        forall|i: int| 0 <= i < s.len() ==> #[trigger] s[i] >= least(s),
        exists|k: int| 0 <= k < s.len() && s[k] == least(s),
    decreases s.len(),
{
    if s.len() > 1 {
        let d = s.drop_last();
        lemma_least(d);
        let k = choose|k: int| 0 <= k < d.len() && d[k] == least(d);
        assert(s[k] == d[k]);
        assert forall|i: int| 0 <= i < s.len() implies #[trigger] s[i] >= least(s) by {
            if i < s.len() - 1 {
                assert(d[i] == s[i]);
            }
        }
        if s.last() < least(d) {
            assert(s[s.len() - 1] == least(s));
        }
    } else {
        assert(s[0] == least(s));
    }
}

/// The position of the first least element of a non-empty sequence.
pub open spec fn first_min(s: Seq<usize>) -> int
    decreases s.len(),
{
    if s.len() <= 1 {
        0
    } else {
        let b = first_min(s.drop_last());
        if s.last() < s[b] {
            s.len() - 1
        } else {
            b
        }
    }
}

proof fn lemma_first_min(s: Seq<usize>)
    requires
        s.len() > 0,
    ensures
        0 <= first_min(s) < s.len(),
        forall|i: int| 0 <= i < s.len() ==> #[trigger] s[i] >= s[first_min(s)],
    decreases s.len(),
{
    if s.len() > 1 {
        let d = s.drop_last();
        lemma_first_min(d);
        assert forall|i: int| 0 <= i < s.len() implies #[trigger] s[i] >= s[first_min(s)] by {
            if i < s.len() - 1 {
                assert(d[i] == s[i]);
                assert(d[first_min(d)] == s[first_min(d)]);
            }
        }
    }
}

/// The characters of each string slice.
pub open spec fn str_views(v: Seq<&str>) -> Seq<Seq<char>> {
    v.map_values(|s: &str| s@)
}

impl<'a> AnySet<'a> {
    /// The number of ids that the group may hold: the sizes of its sets
    /// added up, counting an id once per set that holds it.
    pub closed spec fn spec_estimated_len(&self) -> usize {
        capped(sum_sizes(self.sets@))
    }

    /// The sizes of the group's sets added up, saturating at `usize::MAX`.
    pub fn estimated_len(&self) -> (r: usize)
        ensures
            r == self.spec_estimated_len(),
    {
        let mut total: usize = 0;
        let mut j: usize = 0;
        while j < self.sets.len()
            invariant
                j <= self.sets@.len(),
                total == capped(sum_sizes(self.sets@.take(j as int))),
            decreases self.sets@.len() - j,
        {
            assert(self.sets@.take(j + 1).drop_last() =~= self.sets@.take(j as int));
            let n = self.sets[j].len();
            total = if total > usize::MAX - n {
                usize::MAX
            } else {
                total + n
            };
            j = j + 1;
        }
        assert(self.sets@.take(self.sets@.len() as int) =~= self.sets@);
        total
    }
}

impl<'a> MetadataFilterPlan<'a> {
    /// The estimated sizes of the groups, in order.
    pub closed spec fn estimates(&self) -> Seq<usize> {
        self.includes@.map_values(|a: AnySet| a.spec_estimated_len())
    }

    /// The position of the first group of least estimated size, if any.
    pub closed spec fn spec_base_include(&self) -> Option<int> {
        if self.includes@.len() == 0 {
            None
        } else {
            Some(first_min(self.estimates()))
        }
    }

    /// How many ids the plan may accept at most: the estimate of its
    /// smallest group, or the number of ids when it has no group.
    pub closed spec fn spec_estimated_len(&self) -> usize {
        match self.spec_base_include() {
            Some(b) => self.includes@[b].spec_estimated_len(),
            None => self.index.ids@.len() as usize,
        }
    }

    /// The weight of each group of the plan: the sizes of its sets added
    /// up.
    pub closed spec fn weights(&self) -> Seq<nat> {
        group_weights(self.includes@)
    }

    /// The plan's estimate is the least weight of its groups (as a
    /// `usize`, the largest one when it does not fit), or the number of ids
    /// of the index when it has no group.
    pub proof fn lemma_estimate(&self)
        ensures
            self.spec_estimated_len() == if self.weights().len() == 0 {
                self.index_view().num_ids() as usize
            } else {
                capped(least(self.weights()))
            },
    {
        let w = self.weights();
        let e = self.estimates();
        if w.len() > 0 {
            lemma_first_min(e);
            lemma_least(w);
            let b = first_min(e);
            let k = choose|k: int| 0 <= k < w.len() && w[k] == least(w);
            assert(e[b] == capped(w[b]));
            assert(e[k] == capped(w[k]));
            assert(e[b] <= e[k]);
        }
    }

    /// The position of the first group of least estimated size.
    pub fn base_include(&self) -> (r: Option<usize>)
        ensures
            match r {
                Some(b) => self.spec_base_include() == Some(b as int),
                None => self.spec_base_include() is None,
            },
    {
        if self.includes.len() == 0 {
            return None;
        }
        let mut best: usize = 0;
        let mut best_len = self.includes[0].estimated_len();
        let ghost ests = self.estimates();
        let mut i: usize = 1;
        while i < self.includes.len()
            invariant
                1 <= i <= self.includes@.len(),
                ests == self.estimates(),
                ests.len() == self.includes@.len(),
                best as int == first_min(ests.take(i as int)),
                best_len == ests[best as int],
            decreases self.includes@.len() - i,
        {
            proof {
                lemma_first_min(ests.take(i as int));
                assert(ests.take(i + 1).drop_last() =~= ests.take(i as int));
            }
            let len = self.includes[i].estimated_len();
            if len < best_len {
                best = i;
                best_len = len;
            }
            i = i + 1;
        }
        assert(ests.take(ests.len() as int) =~= ests);
        Some(best)
    }

    /// How many ids the plan may accept at most.
    pub fn estimated_len(&self) -> (r: usize)
        requires
            self.wf(),
        ensures
            r == self.spec_estimated_len(),
    {
        match self.base_include() {
            Some(b) => {
                proof {
                    lemma_first_min(self.estimates());
                }
                self.includes[b].estimated_len()
            },
            None => self.index.ids.len(),
        }
    }
}

/// Position `p` is listed in one of the first `j` sets, or among the first
/// `m` members of set `j`.
pub closed spec fn visited(sets: Seq<&FacetSet>, j: int, m: int, p: usize) -> bool {
    ||| exists|k: int| 0 <= k < j && #[trigger] sets[k].members@.contains(p)
    ||| (j < sets.len() && sets[j].members@.take(m).contains(p))
}

impl MetadataFilterIndex {
    /// Whether set `s` holds the id whose position is `slot`.
    fn set_contains_slot(&self, s: &FacetSet, slot: Option<usize>, Ghost(id): Ghost<Seq<char>>) -> (r: bool)
        requires
            self.owns_set(*s),
            slot matches Some(p) ==> self.id_slots@.contains_key(id) && self.id_slots@[id] == p,
            slot is None ==> !self.id_slots@.contains_key(id),
        ensures
            r == self.set_has_id(*s, id),
    {
        match slot {
            Some(p) => s.contains(p),
            None => false,
        }
    }
}

impl<'a> MetadataFilterPlan<'a> {
    /// Whether the plan accepts the id whose position is `slot`.
    fn accepts_slot(&self, slot: Option<usize>, Ghost(id): Ghost<Seq<char>>) -> (r: bool)
        requires
            self.wf(),
            slot matches Some(p) ==> self.index.id_slots@.contains_key(id) && self.index.id_slots@[id] == p,
            slot is None ==> !self.index.id_slots@.contains_key(id),
        ensures
            r == self.spec_accepts(id),
    {
        let mut i: usize = 0;
        while i < self.includes.len()
            invariant
                self.wf(),
                slot matches Some(p) ==> self.index.id_slots@.contains_key(id) && self.index.id_slots@[id] == p,
                slot is None ==> !self.index.id_slots@.contains_key(id),
                i <= self.includes@.len(),
                forall|k: int| 0 <= k < i ==> #[trigger] any_set_has(*self.index, self.includes@[k].sets@, id),
            decreases self.includes@.len() - i,
        {
            let group = &self.includes[i];
            let mut found = false;
            let mut j: usize = 0;
            while j < group.sets.len()
                invariant
                    self.wf(),
                    *group == self.includes@[i as int],
                    i < self.includes@.len(),
                    slot matches Some(p) ==> self.index.id_slots@.contains_key(id) && self.index.id_slots@[id] == p,
                    slot is None ==> !self.index.id_slots@.contains_key(id),
                    j <= group.sets@.len(),
                    found == exists|q: int| 0 <= q < j && #[trigger] self.index.set_has_id(*group.sets@[q], id),
                decreases group.sets@.len() - j,
            {
                if self.index.set_contains_slot(group.sets[j], slot, Ghost(id)) {
                    found = true;
                }
                j = j + 1;
            }
            if !found {
                assert(!any_set_has(*self.index, self.includes@[i as int].sets@, id));
                return false;
            }
            i = i + 1;
        }
        let mut e: usize = 0;
        while e < self.excludes.len()
            invariant
                self.wf(),
                slot matches Some(p) ==> self.index.id_slots@.contains_key(id) && self.index.id_slots@[id] == p,
                slot is None ==> !self.index.id_slots@.contains_key(id),
                e <= self.excludes@.len(),
                forall|k: int| 0 <= k < self.includes@.len() ==> #[trigger] any_set_has(*self.index, self.includes@[k].sets@, id),
                forall|k: int| 0 <= k < e ==> !#[trigger] self.index.set_has_id(*self.excludes@[k], id),
            decreases self.excludes@.len() - e,
        {
            if self.index.set_contains_slot(self.excludes[e], slot, Ghost(id)) {
                return false;
            }
            e = e + 1;
        }
        true
    }

    /// Whether the plan accepts `id`.
    pub fn accepts(&self, id: &str) -> (r: bool)
        requires
            self.wf(),
        ensures
            r == self.spec_accepts(id@),
    {
        let slot = match self.index.id_slots.get(id) {
            Some(p) => Some(*p),
            None => None,
        };
        self.accepts_slot(slot, Ghost(id@))
    }
}

/// The ids in `v` are those the plan accepts among the index's ids, each once.
pub open spec fn exact_candidates(plan: MetadataFilterPlan, v: Seq<&str>) -> bool {
    &&& str_views(v).no_duplicates()
    &&& forall|k: int|
        0 <= k < v.len() ==> plan.index_view().contains_id(#[trigger] v[k]@) && plan.spec_accepts(
            v[k]@,
        )
    &&& forall|id: Seq<char>|
        plan.index_view().contains_id(id) && #[trigger] plan.spec_accepts(id) ==> str_views(
            v,
        ).contains(id)
}

proof fn lemma_sum_sizes_take(sets: Seq<&FacetSet>, j: int)
    requires
        0 <= j < sets.len(),
    ensures
        sum_sizes(sets.take(j + 1)) == sum_sizes(sets.take(j)) + sets[j].size(),
{
    assert(sets.take(j + 1).drop_last() =~= sets.take(j));
}

impl<'a> MetadataFilterPlan<'a> {
    /// The ids the plan accepts, when at most `max` are estimated; `None`
    /// when more may be.
    pub fn candidate_ids(&self, max: usize) -> (r: Option<Vec<&'a str>>)
        requires
            self.wf(),
        ensures
            r is Some <==> self.spec_estimated_len() <= max,
            r matches Some(v) ==> exact_candidates(*self, v@) && v@.len() <= max,
    {
        broadcast use vstd::std_specs::hash::group_hash_axioms;

        let estimate = self.estimated_len();
        if estimate > max {
            return None;
        }
        let index: &'a MetadataFilterIndex = self.index;
        let mut ids: Vec<&'a str> = Vec::new();
        let ghost mut slots: Seq<usize> = Seq::empty();
        match self.base_include() {
            Some(b) => {
                proof {
                    lemma_first_min(self.estimates());
                }
                let base = &self.includes[b];
                let mut seen: HashSet<usize> = HashSet::new();
                let ghost mut steps: nat = 0;
                let mut j: usize = 0;
                while j < base.sets.len()
                    invariant
                        self.wf(),
                        *base == self.includes@[b as int],
                        b < self.includes@.len(),
                        index == self.index,
                        estimate == capped(sum_sizes(base.sets@)),
                        estimate <= max,
                        j <= base.sets@.len(),
                        ids@.len() == slots.len(),
                        ids@.len() <= steps,
                        steps <= sum_sizes(base.sets@.take(j as int)),
                        forall|p: usize| #[trigger] seen@.contains(p) == visited(base.sets@, j as int, 0, p),
                        slots.no_duplicates(),
                        forall|k: int| 0 <= k < slots.len() ==> #[trigger] slots[k] < index.ids@.len()
                            && seen@.contains(slots[k]) && ids@[k]@ == index.ids@[slots[k] as int]@
                            && self.spec_accepts(index.ids@[slots[k] as int]@),
                        forall|p: usize| #[trigger] seen@.contains(p) && p < index.ids@.len()
                            && self.spec_accepts(index.ids@[p as int]@) ==> slots.contains(p),
                    decreases base.sets@.len() - j,
                {
                    let set: &'a FacetSet = base.sets[j];
                    assert(self.index.owns_set(*set));
                    let mut m: usize = 0;
                    while m < set.members.len()
                        invariant
                            self.wf(),
                            *base == self.includes@[b as int],
                            b < self.includes@.len(),
                            index == self.index,
                            *set == *base.sets@[j as int],
                            j < base.sets@.len(),
                            index.owns_set(*set),
                            estimate == capped(sum_sizes(base.sets@)),
                            estimate <= max,
                            m <= set.members@.len(),
                            ids@.len() == slots.len(),
                            ids@.len() <= steps,
                            steps <= sum_sizes(base.sets@.take(j as int)) + m,
                            forall|p: usize| #[trigger] seen@.contains(p) == visited(base.sets@, j as int, m as int, p),
                            slots.no_duplicates(),
                            forall|k: int| 0 <= k < slots.len() ==> #[trigger] slots[k] < index.ids@.len()
                                && seen@.contains(slots[k]) && ids@[k]@ == index.ids@[slots[k] as int]@
                                && self.spec_accepts(index.ids@[slots[k] as int]@),
                            forall|p: usize| #[trigger] seen@.contains(p) && p < index.ids@.len()
                                && self.spec_accepts(index.ids@[p as int]@) ==> slots.contains(p),
                        decreases set.members@.len() - m,
                    {
                        let p = set.members[m];
                        proof {
                            steps = steps + 1;
                            assert(set.members@[m as int] < index.ids@.len());
                            let t1 = set.members@.take(m + 1);
                            let t0 = set.members@.take(m as int);
                            assert(t1 =~= t0.push(p));
                            assert forall|q: usize| t1.contains(q) == (t0.contains(q) || q == p) by {
                                if t1.contains(q) {
                                    let k = choose|k: int| 0 <= k < t1.len() && t1[k] == q;
                                    if k < m {
                                        assert(t0[k] == q);
                                    }
                                }
                                if t0.contains(q) {
                                    let k = choose|k: int| 0 <= k < t0.len() && t0[k] == q;
                                    assert(t1[k] == q);
                                }
                                if q == p {
                                    assert(t1[m as int] == q);
                                }
                            }
                        }
                        if !seen.contains(&p) {
                            seen.insert(p);
                            let ghost id = index.ids@[p as int]@;
                            proof {
                                assert(index.id_slots@.contains_key(index.ids@[p as int]@));
                            }
                            let ghost slots0 = slots;
                            if self.accepts_slot(Some(p), Ghost(id)) {
                                ids.push(index.ids[p].as_str());
                                proof {
                                    slots = slots.push(p);
                                    assert(slots[slots.len() - 1] == p);
                                    assert forall|q: usize| slots0.contains(q) implies slots.contains(q) by {
                                        let k = choose|k: int| 0 <= k < slots0.len() && slots0[k] == q;
                                        assert(slots[k] == q);
                                    }
                                    assert forall|x: int, y: int| 0 <= x < slots.len() && 0 <= y < slots.len() && x != y
                                        implies slots[x] != slots[y] by {
                                        if x == slots.len() - 1 {
                                            assert(seen@.contains(slots[y]) || slots[y] == p);
                                        }
                                        if y == slots.len() - 1 {
                                            assert(seen@.contains(slots[x]) || slots[x] == p);
                                        }
                                    }
                                    assert(slots[slots.len() - 1] == p);
                                }
                                if ids.len() > max {
                                    proof {
                                        lemma_sum_sizes_take(base.sets@, j as int);
                                        lemma_sum_sizes_prefix(base.sets@, j + 1);
                                    }
                                    return None;
                                }
                            }
                        }
                        m = m + 1;
                    }
                    proof {
                        lemma_sum_sizes_take(base.sets@, j as int);
                        assert(set.members@.take(set.members@.len() as int) =~= set.members@);
                        assert forall|p: usize| #[trigger] seen@.contains(p) == visited(base.sets@, j + 1, 0, p) by {
                            if visited(base.sets@, j + 1, 0, p) {
                                let k = choose|k: int| 0 <= k < j + 1 && #[trigger] base.sets@[k].members@.contains(p);
                                if k < j {
                                    assert(visited(base.sets@, j as int, set.members@.len() as int, p));
                                }
                            }
                            if visited(base.sets@, j as int, set.members@.len() as int, p) {
                                if set.members@.contains(p) {
                                    assert(base.sets@[j as int].members@.contains(p));
                                }
                            }
                        }
                    }
                    j = j + 1;
                }
                let n_ids = ids.len();
                proof {
                    assert(base.sets@.take(base.sets@.len() as int) =~= base.sets@);
                    assert(ids@.len() <= max);
                    assert forall|id: Seq<char>| index.contains_id(id) && #[trigger] self.spec_accepts(id)
                        implies str_views(ids@).contains(id) by {
                        assert(any_set_has(*self.index, self.includes@[b as int].sets@, id));
                        let q = choose|q: int| 0 <= q < base.sets@.len() && #[trigger] index.set_has_id(*base.sets@[q], id);
                        let p = index.id_slots@[id];
                        assert(index.owns_set(*base.sets@[q]));
                        assert(base.sets@[q].members@.to_set().contains(p));
                        assert(base.sets@[q].members@.contains(p));
                        assert(visited(base.sets@, base.sets@.len() as int, 0, p));
                        assert(seen@.contains(p));
                        assert(slots.contains(p));
                        let k = choose|k: int| 0 <= k < slots.len() && slots[k] == p;
                        assert(str_views(ids@)[k] == id);
                    }
                }
            },
            None => {
                let mut p: usize = 0;
                while p < index.ids.len()
                    invariant
                        self.wf(),
                        index == self.index,
                        self.includes@.len() == 0,
                        estimate == index.ids@.len() as usize,
                        estimate <= max,
                        p <= index.ids@.len(),
                        ids@.len() == slots.len(),
                        ids@.len() <= p,
                        forall|k: int| 0 <= k < slots.len() ==> #[trigger] slots[k] < p
                            && ids@[k]@ == index.ids@[slots[k] as int]@
                            && self.spec_accepts(index.ids@[slots[k] as int]@),
                        forall|x: int, y: int| 0 <= x < y < slots.len() ==> #[trigger] slots[x] < #[trigger] slots[y],
                        forall|q: usize| q < p && #[trigger] self.spec_accepts(index.ids@[q as int]@) ==> slots.contains(q),
                    decreases index.ids@.len() - p,
                {
                    let ghost id = index.ids@[p as int]@;
                    proof {
                        assert(index.id_slots@.contains_key(index.ids@[p as int]@));
                    }
                    let ghost slots0 = slots;
                    if self.accepts_slot(Some(p), Ghost(id)) {
                        ids.push(index.ids[p].as_str());
                        proof {
                            slots = slots.push(p);
                            assert(slots[slots.len() - 1] == p);
                            assert forall|q: usize| slots0.contains(q) implies slots.contains(q) by {
                                let k = choose|k: int| 0 <= k < slots0.len() && slots0[k] == q;
                                assert(slots[k] == q);
                            }
                        }
                        if ids.len() > max {
                            return None;
                        }
                    }
                    p = p + 1;
                }
                proof {
                    assert forall|id: Seq<char>| index.contains_id(id) && #[trigger] self.spec_accepts(id)
                        implies str_views(ids@).contains(id) by {
                        let q = index.id_slots@[id];
                        assert(index.ids@[q as int]@ == id);
                        assert(slots.contains(q));
                        let k = choose|k: int| 0 <= k < slots.len() && slots[k] == q;
                        assert(str_views(ids@)[k] == id);
                    }
                    assert(slots.no_duplicates());
                }
            },
        }
        proof {
            assert forall|x: int, y: int| 0 <= x < ids@.len() && 0 <= y < ids@.len() && x != y
                implies str_views(ids@)[x] != str_views(ids@)[y] by {
                assert(slots[x] != slots[y]);
                assert(index.id_slots@[index.ids@[slots[x] as int]@] == slots[x]);
                assert(index.id_slots@[index.ids@[slots[y] as int]@] == slots[y]);
            }
            assert forall|k: int| 0 <= k < ids@.len() implies index.contains_id(#[trigger] ids@[k]@)
                && self.spec_accepts(ids@[k]@) by {
                assert(index.id_slots@.contains_key(index.ids@[slots[k] as int]@));
            }
        }
        Some(ids)
    }
}

proof fn lemma_sum_sizes_prefix(sets: Seq<&FacetSet>, j: int)
    requires
        0 <= j <= sets.len(),
    ensures
        sum_sizes(sets.take(j)) <= sum_sizes(sets),
    decreases sets.len() - j,
{
    if j < sets.len() {
        lemma_sum_sizes_take(sets, j);
        lemma_sum_sizes_prefix(sets, j + 1);
    } else {
        assert(sets.take(j) =~= sets);
    }
}

impl<'a> CompiledMetadataFilter<'a> {
    /// A plan is well formed over its index.
    pub closed spec fn wf(&self) -> bool {
        self matches CompiledMetadataFilter::Plan(plan) ==> plan.wf()
    }

    /// How many ids the compiled filter may accept at most; none for `All`
    /// and `Nothing`, which list no ids.
    pub open spec fn spec_estimate(&self) -> Option<usize> {
        match self {
            CompiledMetadataFilter::Plan(plan) => Some(plan.spec_estimated_len()),
            _ => None,
        }
    }

    /// The ids in `v` are exactly those the plan accepts among the index's
    /// ids, each once.
    pub open spec fn lists_candidates(&self, v: Seq<&str>) -> bool {
        &&& self is Plan
        &&& str_views(v).no_duplicates()
        &&& forall|k: int|
            0 <= k < v.len() ==> self->Plan_0.index_view().contains_id(#[trigger] v[k]@)
                && self.spec_accepts(v[k]@)
        &&& forall|id: Seq<char>|
            self->Plan_0.index_view().contains_id(id) && #[trigger] self.spec_accepts(id)
                ==> str_views(v).contains(id)
    }

    /// Whether `id` is accepted.
    pub fn accepts(&self, id: &str) -> (r: bool)
        requires
            self.wf(),
        ensures
            r == self.spec_accepts(id@),
    {
        match self {
            CompiledMetadataFilter::All => true,
            CompiledMetadataFilter::Nothing => false,
            CompiledMetadataFilter::Plan(plan) => plan.accepts(id),
        }
    }

    /// Whether no id is accepted, by construction.
    pub fn is_none(&self) -> (r: bool)
        ensures
            r == self is Nothing,
            r ==> forall|id: Seq<char>| !#[trigger] self.spec_accepts(id),
    {
        match self {
            CompiledMetadataFilter::Nothing => true,
            _ => false,
        }
    }

    /// Whether every id is accepted, by construction.
    pub fn is_all(&self) -> (r: bool)
        ensures
            r == self is All,
            r ==> forall|id: Seq<char>| #[trigger] self.spec_accepts(id),
    {
        match self {
            CompiledMetadataFilter::All => true,
            _ => false,
        }
    }

    /// The accepted ids, when the filter is a plan estimated to accept at
    /// most `max` ids.
    pub fn candidate_ids(&self, max: usize) -> (r: Option<Vec<&'a str>>)
        requires
            self.wf(),
        ensures
            r is Some <==> (self.spec_estimate() matches Some(e) && e <= max),
            r matches Some(v) ==> self.lists_candidates(v@) && v@.len() <= max,
    {
        match self {
            CompiledMetadataFilter::Plan(plan) => plan.candidate_ids(max),
            _ => None,
        }
    }
}

} // verus!
