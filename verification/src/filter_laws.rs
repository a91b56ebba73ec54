//! The metadata index answers a filter as the exact match does: for every
//! record it indexes, and every filter whose operands are scalars (arrays
//! of scalars for `$in` and `$nin`). Zero is the one number with two texts
//! (`0.0` and `-0.0`), so the laws hold in two modes: with `nz` set, no
//! number in the metadata or the filter is `-0.0`; with `nz` unset, no
//! operand is a floating-point zero.

use vstd::prelude::*;

use crate::filter::{
    contains_any, element_tokens, is_metadata_token, metadata_lookup, operator_matches,
    scalar_text, spec_any_accepts, spec_entry_accepts, spec_filter_accepts, spec_include_accepts,
    spec_metadata_matches, spec_operator_accepts, spec_scalar_token, spec_value_contains,
    spec_value_matches_filter, spec_value_tokens, str_views, token_of, CompiledMetadataFilter,
    MetadataFilterIndex,
};
use crate::json::{
    is_float_zero_text, json_eq, json_escaped, json_quoted, lemma_escaped_injective,
    lemma_escaped_no_unit_separator, number_text_eq, JsonValue,
};

verus! {

/// A character that may appear in the text of a JSON number.
pub open spec fn number_char(c: char) -> bool {
    ('0' <= c && c <= '9') || c == '-' || c == '+' || c == '.' || c == 'e' || c == 'E'
}

/// The text of a JSON number: not empty, digits, signs, a point, exponents.
pub open spec fn number_text_ok(t: Seq<char>) -> bool {
    t.len() > 0 && forall|i: int| 0 <= i < t.len() ==> #[trigger] number_char(t[i])
}

/// Null, a boolean, a number or a string.
pub open spec fn is_scalar(v: JsonValue) -> bool {
    v is Null || v is Bool || v is Number || v is Str
}

/// A scalar, whose text is a number's when it is a number.
pub open spec fn scalar_ok(v: JsonValue) -> bool {
    is_scalar(v) && (v is Number ==> number_text_ok(v->Number_0@))
}

/// A number's text as the law asks of metadata: the text of a number, and
/// not `-0.0` when `nz` (no negative zero anywhere) holds.
pub open spec fn number_ok(t: Seq<char>, nz: bool) -> bool {
    number_text_ok(t) && (nz ==> t != "-0.0"@)
}

/// A scalar of metadata as the law asks of it.
pub open spec fn meta_scalar_ok(v: JsonValue, nz: bool) -> bool {
    is_scalar(v) && (v is Number ==> number_ok(v->Number_0@, nz))
}

/// Every number that gets a token (the value itself, or an element of an
/// array) has the text of a number, and not `-0.0` when `nz` holds.
pub open spec fn value_ok(v: JsonValue, nz: bool) -> bool {
    match v {
        JsonValue::Number(t) => number_ok(t@, nz),
        JsonValue::Array(vs) => forall|e: int|
            0 <= e < vs@.len() ==> (#[trigger] vs@[e] is Number ==> number_ok(vs@[e]->Number_0@, nz)),
        _ => true,
    }
}

/// Metadata as it is read from JSON: each key once, numbers with number
/// texts (none `-0.0` when `nz` holds).
pub open spec fn metadata_ok(m: Seq<(String, JsonValue)>, nz: bool) -> bool {
    &&& forall|i: int, j: int| 0 <= i < j < m.len() ==> #[trigger] m[i].0@ != #[trigger] m[j].0@
    &&& forall|i: int| 0 <= i < m.len() ==> value_ok(#[trigger] m[i].1, nz)
}

/// A filter operand the index answers exactly: a scalar whose number text,
/// if any, is not `-0.0` when `nz` holds, and is no floating-point zero at
/// all otherwise (the two zero texts denote one number).
pub open spec fn plain_value(v: JsonValue, nz: bool) -> bool {
    scalar_ok(v) && (v is Number ==> if nz {
        v->Number_0@ != "-0.0"@
    } else {
        !is_float_zero_text(v->Number_0@)
    })
}

/// An operator whose operand the index answers exactly.
pub open spec fn plain_operator(op: Seq<char>, value: JsonValue, nz: bool) -> bool {
    if op == "$eq"@ {
        plain_value(value, nz)
    } else if op == "$in"@ || op == "$nin"@ {
        value is Array ==> forall|e: int|
            0 <= e < value->Array_0@.len() ==> plain_value(#[trigger] value->Array_0@[e], nz)
    } else {
        true
    }
}

/// A filter entry the index answers exactly.
pub open spec fn plain_entry(v: JsonValue, nz: bool) -> bool {
    match v {
        JsonValue::Object(ops) => forall|j: int|
            0 <= j < ops@.len() ==> #[trigger] plain_operator(ops@[j].0@, ops@[j].1, nz),
        _ => plain_value(v, nz),
    }
}

/// A filter whose entries the index answers exactly.
pub open spec fn plain_filter(f: Seq<(String, JsonValue)>, nz: bool) -> bool {
    forall|i: int| 0 <= i < f.len() ==> plain_entry(#[trigger] f[i].1, nz)
}

/// The index holds exactly the records of `m`: its ids are `m`'s keys, and
/// a record carries a token when its metadata does.
pub open spec fn indexes(ix: MetadataFilterIndex, m: Map<Seq<char>, Seq<(String, JsonValue)>>) -> bool {
    &&& forall|id: Seq<char>| #[trigger] ix.contains_id(id) == m.contains_key(id)
    &&& forall|t: Seq<char>, id: Seq<char>|
        #[trigger] ix.facet_contains(t, id) == (m.contains_key(id) && is_metadata_token(m[id], t))
}

proof fn lemma_scalar_text_shape(v: JsonValue)
    requires
        scalar_ok(v),
    ensures
        scalar_text(v) is Some,
        scalar_text(v)->0.len() > 0,
        !scalar_text(v)->0.contains('\u{1f}'),
        v is Null ==> scalar_text(v)->0[0] == 'n',
        v is Bool ==> (scalar_text(v)->0[0] == 't' || scalar_text(v)->0[0] == 'f'),
        v is Bool ==> (scalar_text(v)->0[0] == 't' <==> v->Bool_0),
        v is Number ==> number_char(scalar_text(v)->0[0]),
        v is Str ==> scalar_text(v)->0[0] == '"',
{
    reveal_strlit("null");
    reveal_strlit("true");
    reveal_strlit("false");
    match v {
        JsonValue::Str(s) => {
            lemma_escaped_no_unit_separator(s@);
            let q = json_quoted(s@);
            let e = json_escaped(s@);
            assert forall|i: int| 0 <= i < q.len() implies q[i] != '\u{1f}' by {
                if 1 <= i < q.len() - 1 {
                    assert(q[i] == e[i - 1]);
                }
            }
        },
        JsonValue::Number(t) => {
            assert(number_char(t@[0]));
            assert forall|i: int| 0 <= i < t@.len() implies t@[i] != '\u{1f}' by {
                assert(number_char(t@[i]));
            }
        },
        _ => {},
    }
}

/// Two scalar texts are equal exactly when the scalars are, for a metadata
/// scalar and an operand as the law's mode asks.
proof fn lemma_text_eq_iff_json_eq(a: JsonValue, v: JsonValue, nz: bool)
    requires
        meta_scalar_ok(a, nz),
        plain_value(v, nz),
    ensures
        (scalar_text(a)->0 == scalar_text(v)->0) == json_eq(a, v),
{
    lemma_scalar_text_shape(a);
    lemma_scalar_text_shape(v);
    reveal_strlit("true");
    reveal_strlit("false");
    match (a, v) {
        (JsonValue::Str(x), JsonValue::Str(y)) => {
            let qx = json_quoted(x@);
            let qy = json_quoted(y@);
            if qx == qy {
                assert(json_escaped(x@) =~= qx.subrange(1, qx.len() - 1));
                assert(json_escaped(y@) =~= qy.subrange(1, qy.len() - 1));
                lemma_escaped_injective(x@, y@);
            }
        },
        (JsonValue::Bool(x), JsonValue::Bool(y)) => {},
        (JsonValue::Number(x), JsonValue::Number(y)) => {
            reveal_strlit("0.0");
            reveal_strlit("-0.0");
            if is_float_zero_text(x@) && is_float_zero_text(y@) && nz {
                assert(x@ == "0.0"@ && y@ == "0.0"@);
            }
        },
        _ => {},
    }
}

/// Tokens of texts without U+001F determine the key and the text.
proof fn lemma_token_injective(k1: Seq<char>, t1: Seq<char>, k2: Seq<char>, t2: Seq<char>)
    requires
        !t1.contains('\u{1f}'),
        !t2.contains('\u{1f}'),
        token_of(k1, t1) == token_of(k2, t2),
    ensures
        k1 == k2,
        t1 == t2,
{
    let x = token_of(k1, t1);
    let y = token_of(k2, t2);
    let u1 = k1 + seq!['\u{1f}'];
    let u2 = k2 + seq!['\u{1f}'];
    assert(x == u1 + t1);
    assert(y == u2 + t2);
    if k1.len() < k2.len() {
        let j = k2.len() - k1.len() - 1;
        assert(y[k2.len() as int] == u2[k2.len() as int]);
        assert(x[k2.len() as int] == t1[j]);
        assert(t1.contains(t1[j]));
    } else if k2.len() < k1.len() {
        let j = k1.len() - k2.len() - 1;
        assert(x[k1.len() as int] == u1[k1.len() as int]);
        assert(y[k1.len() as int] == t2[j]);
        assert(t2.contains(t2[j]));
    }
    assert(k1 =~= x.subrange(0, k1.len() as int));
    assert(k2 =~= y.subrange(0, k2.len() as int));
    assert(t1 =~= x.subrange(k1.len() as int + 1, x.len() as int));
    assert(t2 =~= y.subrange(k2.len() as int + 1, y.len() as int));
}


proof fn lemma_element_tokens_contains(k: Seq<char>, vs: Seq<JsonValue>, t: Seq<char>)
    ensures
        element_tokens(k, vs).contains(t) <==> exists|e: int|
            0 <= e < vs.len() && #[trigger] spec_scalar_token(k, vs[e]) == Some(t),
    decreases vs.len(),
{
    if vs.len() > 0 {
        let d = vs.drop_last();
        lemma_element_tokens_contains(k, d, t);
        let front = element_tokens(k, d);
        let back: Seq<Seq<char>> = match spec_scalar_token(k, vs.last()) {
            Some(x) => seq![x],
            None => Seq::empty(),
        };
        let all = element_tokens(k, vs);
        assert(all == front + back);
        if all.contains(t) {
            let i = choose|i: int| 0 <= i < all.len() && all[i] == t;
            if i < front.len() {
                assert(front[i] == t);
                let e = choose|e: int| 0 <= e < d.len() && #[trigger] spec_scalar_token(k, d[e]) == Some(t);
                assert(d[e] == vs[e]);
            } else {
                assert(spec_scalar_token(k, vs[vs.len() - 1]) == Some(t));
            }
        }
        if exists|e: int| 0 <= e < vs.len() && #[trigger] spec_scalar_token(k, vs[e]) == Some(t) {
            let e = choose|e: int| 0 <= e < vs.len() && #[trigger] spec_scalar_token(k, vs[e]) == Some(t);
            if e < vs.len() - 1 {
                assert(d[e] == vs[e]);
                assert(spec_scalar_token(k, d[e]) == Some(t));
                assert(front.contains(t));
                let i = choose|i: int| 0 <= i < front.len() && front[i] == t;
                assert(all[i] == t);
            } else {
                assert(all[front.len() as int] == t);
            }
        }
    }
}

/// A scalar's token under `k2` is the token of `v` under `k` exactly when
/// the keys agree and the values are equal.
proof fn lemma_scalar_token_match(k2: Seq<char>, a: JsonValue, k: Seq<char>, v: JsonValue, nz: bool)
    requires
        plain_value(v, nz),
        is_scalar(a) ==> meta_scalar_ok(a, nz),
    ensures
        (spec_scalar_token(k2, a) == Some(token_of(k, scalar_text(v)->0))) == (k2 == k && json_eq(a, v)),
{
    lemma_scalar_text_shape(v);
    if is_scalar(a) {
        lemma_scalar_text_shape(a);
        lemma_text_eq_iff_json_eq(a, v, nz);
        if spec_scalar_token(k2, a) == Some(token_of(k, scalar_text(v)->0)) {
            lemma_token_injective(k2, scalar_text(a)->0, k, scalar_text(v)->0);
        }
    }
}

/// The tokens of a value under `k2` include the token of `v` under `k`
/// exactly when the keys agree and the value holds `v`.
proof fn lemma_value_tokens_match(k2: Seq<char>, a: JsonValue, k: Seq<char>, v: JsonValue, nz: bool)
    requires
        plain_value(v, nz),
        value_ok(a, nz),
    ensures
        spec_value_tokens(k2, a).contains(token_of(k, scalar_text(v)->0)) == (k2 == k
            && spec_value_contains(a, v)),
{
    let t = token_of(k, scalar_text(v)->0);
    match a {
        JsonValue::Array(vs) => {
            lemma_element_tokens_contains(k2, vs@, t);
            if spec_value_tokens(k2, a).contains(t) {
                let e = choose|e: int| 0 <= e < vs@.len() && #[trigger] spec_scalar_token(k2, vs@[e]) == Some(t);
                lemma_scalar_token_match(k2, vs@[e], k, v, nz);
            }
            if k2 == k && spec_value_contains(a, v) {
                let e = choose|e: int| 0 <= e < vs@.len() && #[trigger] json_eq(vs@[e], v);
                lemma_scalar_token_match(k2, vs@[e], k, v, nz);
            }
        },
        JsonValue::Object(_) => {
            assert(spec_value_tokens(k2, a) =~= Seq::<Seq<char>>::empty());
        },
        _ => {
            lemma_scalar_token_match(k2, a, k, v, nz);
            let toks = spec_value_tokens(k2, a);
            if toks.contains(t) {
                let i = choose|i: int| 0 <= i < toks.len() && toks[i] == t;
            }
            if k2 == k && json_eq(a, v) {
                assert(toks[0] == t);
            }
        },
    }
}

/// With each key once, the value under a key is that of the entry with it.
proof fn lemma_lookup_entry(m: Seq<(String, JsonValue)>, k: Seq<char>)
    requires
        forall|i: int, j: int| 0 <= i < j < m.len() ==> #[trigger] m[i].0@ != #[trigger] m[j].0@,
    ensures
        forall|i: int| 0 <= i < m.len() && #[trigger] m[i].0@ == k ==> metadata_lookup(m, k) == Some(m[i].1),
        (forall|i: int| 0 <= i < m.len() ==> #[trigger] m[i].0@ != k) ==> metadata_lookup(m, k) is None,
    decreases m.len(),
{
    if m.len() > 0 {
        let d = m.drop_first();
        assert forall|i: int, j: int| 0 <= i < j < d.len() implies #[trigger] d[i].0@ != #[trigger] d[j].0@ by {
            assert(d[i] == m[i + 1] && d[j] == m[j + 1]);
        }
        lemma_lookup_entry(d, k);
        assert forall|i: int| 0 <= i < m.len() && #[trigger] m[i].0@ == k implies metadata_lookup(m, k) == Some(m[i].1) by {
            if i > 0 {
                assert(m[0].0@ != m[i].0@);
                assert(d[i - 1] == m[i]);
            }
        }
        if forall|i: int| 0 <= i < m.len() ==> #[trigger] m[i].0@ != k {
            assert forall|i: int| 0 <= i < d.len() implies #[trigger] d[i].0@ != k by {
                assert(d[i] == m[i + 1]);
            }
        }
    }
}

/// Metadata carries the token of `v` under `k` exactly when the value under
/// `k` holds `v`.
proof fn lemma_metadata_token_match(m: Seq<(String, JsonValue)>, k: Seq<char>, v: JsonValue, nz: bool)
    requires
        metadata_ok(m, nz),
        plain_value(v, nz),
    ensures
        is_metadata_token(m, token_of(k, scalar_text(v)->0)) == (metadata_lookup(m, k) is Some
            && spec_value_contains(metadata_lookup(m, k)->0, v)),
{
    let t = token_of(k, scalar_text(v)->0);
    lemma_lookup_entry(m, k);
    if is_metadata_token(m, t) {
        let i = choose|i: int| 0 <= i < m.len() && #[trigger] spec_value_tokens(m[i].0@, m[i].1).contains(t);
        lemma_value_tokens_match(m[i].0@, m[i].1, k, v, nz);
        assert(metadata_lookup(m, k) == Some(m[i].1));
    }
    if metadata_lookup(m, k) is Some && spec_value_contains(metadata_lookup(m, k)->0, v) {
        if forall|i: int| 0 <= i < m.len() ==> #[trigger] m[i].0@ != k {
            assert(false);
        }
        let i = choose|i: int| 0 <= i < m.len() && #[trigger] m[i].0@ == k;
        lemma_value_tokens_match(m[i].0@, m[i].1, k, v, nz);
        assert(spec_value_tokens(m[i].0@, m[i].1).contains(t));
    }
}


proof fn lemma_include_agrees(
    ix: MetadataFilterIndex,
    m: Map<Seq<char>, Seq<(String, JsonValue)>>,
    k: Seq<char>,
    v: JsonValue,
    id: Seq<char>,
    nz: bool,
)
    requires
        indexes(ix, m),
        m.contains_key(id),
        metadata_ok(m[id], nz),
        plain_value(v, nz),
    ensures
        spec_include_accepts(ix, k, v, id) == (metadata_lookup(m[id], k) is Some && spec_value_contains(
            metadata_lookup(m[id], k)->0,
            v,
        )),
{
    lemma_scalar_text_shape(v);
    let t = token_of(k, scalar_text(v)->0);
    let toks = spec_value_tokens(k, v);
    assert(toks =~= seq![t]);
    lemma_metadata_token_match(m[id], k, v, nz);
    assert(ix.facet_contains(t, id) == is_metadata_token(m[id], t));
    if spec_include_accepts(ix, k, v, id) {
        let j = choose|j: int| 0 <= j < toks.len() && #[trigger] ix.facet_contains(toks[j], id);
        assert(toks[j] == t);
    }
    if ix.facet_contains(t, id) {
        assert(ix.facet_contains(toks[0], id));
    }
}

proof fn lemma_any_agrees(
    ix: MetadataFilterIndex,
    m: Map<Seq<char>, Seq<(String, JsonValue)>>,
    k: Seq<char>,
    vals: Seq<JsonValue>,
    id: Seq<char>,
    nz: bool,
)
    requires
        indexes(ix, m),
        m.contains_key(id),
        metadata_ok(m[id], nz),
        forall|e: int| 0 <= e < vals.len() ==> plain_value(#[trigger] vals[e], nz),
    ensures
        spec_any_accepts(ix, k, vals, id) == (metadata_lookup(m[id], k) is Some && contains_any(
            metadata_lookup(m[id], k)->0,
            vals,
        )),
{
    let actual = metadata_lookup(m[id], k);
    if spec_any_accepts(ix, k, vals, id) {
        let e = choose|e: int| 0 <= e < vals.len() && #[trigger] spec_include_accepts(ix, k, vals[e], id);
        lemma_include_agrees(ix, m, k, vals[e], id, nz);
        assert(spec_value_contains(actual->0, vals[e]));
    }
    if actual is Some && contains_any(actual->0, vals) {
        let e = choose|e: int| 0 <= e < vals.len() && #[trigger] spec_value_contains(actual->0, vals[e]);
        lemma_include_agrees(ix, m, k, vals[e], id, nz);
        assert(spec_include_accepts(ix, k, vals[e], id));
    }
}

proof fn lemma_operator_agrees(
    ix: MetadataFilterIndex,
    m: Map<Seq<char>, Seq<(String, JsonValue)>>,
    k: Seq<char>,
    op: Seq<char>,
    val: JsonValue,
    id: Seq<char>,
    nz: bool,
)
    requires
        indexes(ix, m),
        m.contains_key(id),
        metadata_ok(m[id], nz),
        plain_operator(op, val, nz),
    ensures
        spec_operator_accepts(ix, k, op, val, id) == operator_matches(metadata_lookup(m[id], k), op, val),
{
    if op == "$eq"@ {
        lemma_include_agrees(ix, m, k, val, id, nz);
    } else if (op == "$in"@ || op == "$nin"@) && val is Array {
        lemma_any_agrees(ix, m, k, val->Array_0@, id, nz);
    }
}

proof fn lemma_entry_agrees(
    ix: MetadataFilterIndex,
    m: Map<Seq<char>, Seq<(String, JsonValue)>>,
    k: Seq<char>,
    expected: JsonValue,
    id: Seq<char>,
    nz: bool,
)
    requires
        indexes(ix, m),
        m.contains_key(id),
        metadata_ok(m[id], nz),
        plain_entry(expected, nz),
    ensures
        spec_entry_accepts(ix, k, expected, id) == spec_value_matches_filter(
            metadata_lookup(m[id], k),
            expected,
        ),
{
    let actual = metadata_lookup(m[id], k);
    match expected {
        JsonValue::Object(ops) => {
            if spec_entry_accepts(ix, k, expected, id) {
                assert forall|j: int| 0 <= j < ops@.len() implies #[trigger] operator_matches(
                    actual,
                    ops@[j].0@,
                    ops@[j].1,
                ) by {
                    assert(plain_operator(ops@[j].0@, ops@[j].1, nz));
                    assert(spec_operator_accepts(ix, k, ops@[j].0@, ops@[j].1, id));
                    lemma_operator_agrees(ix, m, k, ops@[j].0@, ops@[j].1, id, nz);
                }
            }
            if spec_value_matches_filter(actual, expected) {
                assert forall|j: int| 0 <= j < ops@.len() implies #[trigger] spec_operator_accepts(
                    ix,
                    k,
                    ops@[j].0@,
                    ops@[j].1,
                    id,
                ) by {
                    assert(plain_operator(ops@[j].0@, ops@[j].1, nz));
                    assert(operator_matches(actual, ops@[j].0@, ops@[j].1));
                    lemma_operator_agrees(ix, m, k, ops@[j].0@, ops@[j].1, id, nz);
                }
            }
        },
        _ => {
            lemma_include_agrees(ix, m, k, expected, id, nz);
        },
    }
}

/// The metadata index answers a filter as the exact match does: for a
/// record it indexes, and a filter whose operands are scalars (arrays of
/// scalars for `$in` and `$nin`), the compiled filter accepts the record
/// exactly when its metadata matches; with `nz`, when no number of the
/// metadata or the filter is `-0.0`, otherwise when no operand is a
/// floating-point zero.
pub proof fn lemma_index_agrees_with_exact_match(
    ix: MetadataFilterIndex,
    m: Map<Seq<char>, Seq<(String, JsonValue)>>,
    filter: Seq<(String, JsonValue)>,
    id: Seq<char>,
    nz: bool,
)
    requires
        indexes(ix, m),
        m.contains_key(id),
        metadata_ok(m[id], nz),
        plain_filter(filter, nz),
    ensures
        spec_filter_accepts(ix, filter, id) == spec_metadata_matches(m[id], filter),
{
    let md = m[id];
    if spec_filter_accepts(ix, filter, id) {
        assert forall|i: int| 0 <= i < filter.len() implies #[trigger] spec_value_matches_filter(
            metadata_lookup(md, filter[i].0@),
            filter[i].1,
        ) by {
            assert(plain_entry(filter[i].1, nz));
            assert(spec_entry_accepts(ix, filter[i].0@, filter[i].1, id));
            lemma_entry_agrees(ix, m, filter[i].0@, filter[i].1, id, nz);
        }
    }
    if spec_metadata_matches(md, filter) {
        assert forall|i: int| 0 <= i < filter.len() implies #[trigger] spec_entry_accepts(
            ix,
            filter[i].0@,
            filter[i].1,
            id,
        ) by {
            assert(plain_entry(filter[i].1, nz));
            assert(spec_value_matches_filter(metadata_lookup(md, filter[i].0@), filter[i].1));
            lemma_entry_agrees(ix, m, filter[i].0@, filter[i].1, id, nz);
        }
    }
}

/// The ids a compiled filter lists are exactly the indexed records whose
/// metadata matches the filter, for a filter whose operands are scalars
/// (arrays of scalars for `$in` and `$nin`) under the same two modes as
/// `lemma_index_agrees_with_exact_match`: answering a selective filter from
/// its candidate ids is exact.
pub proof fn lemma_candidates_match_exactly(
    ix: MetadataFilterIndex,
    m: Map<Seq<char>, Seq<(String, JsonValue)>>,
    filter: Seq<(String, JsonValue)>,
    compiled: CompiledMetadataFilter,
    v: Seq<&str>,
    nz: bool,
)
    requires
        indexes(ix, m),
        forall|id: Seq<char>| m.contains_key(id) ==> metadata_ok(#[trigger] m[id], nz),
        plain_filter(filter, nz),
        forall|id: Seq<char>| #[trigger] compiled.spec_accepts(id) == spec_filter_accepts(ix, filter, id),
        compiled matches CompiledMetadataFilter::Plan(plan) ==> plan.index_view() == ix,
        compiled.lists_candidates(v),
    ensures
        forall|id: Seq<char>|
            #[trigger] str_views(v).contains(id) <==> (m.contains_key(id) && spec_metadata_matches(m[id], filter)),
{
    assert forall|id: Seq<char>|
        #[trigger] str_views(v).contains(id) <==> (m.contains_key(id) && spec_metadata_matches(m[id], filter)) by {
        if str_views(v).contains(id) {
            let k = choose|k: int| 0 <= k < str_views(v).len() && str_views(v)[k] == id;
            assert(v[k]@ == id);
            assert(ix.contains_id(id));
            lemma_index_agrees_with_exact_match(ix, m, filter, id, nz);
        }
        if m.contains_key(id) && spec_metadata_matches(m[id], filter) {
            lemma_index_agrees_with_exact_match(ix, m, filter, id, nz);
            assert(compiled.spec_accepts(id));
            assert(ix.contains_id(id));
        }
    }
}

/// An empty index holds exactly the records of the empty map.
pub proof fn lemma_empty_index(ix: MetadataFilterIndex)
    requires
        forall|id: Seq<char>| !#[trigger] ix.contains_id(id),
        forall|t: Seq<char>| !#[trigger] ix.has_token(t),
        ix.wf(),
    ensures
        indexes(ix, Map::empty()),
{
    assert forall|t: Seq<char>, id: Seq<char>| #[trigger] ix.facet_contains(t, id) == false by {
        ix.lemma_facet_implies(t, id);
    }
}

/// Inserting a record that is not yet indexed gives the index of the map
/// with that record added.
pub proof fn lemma_insert_indexes(
    before: MetadataFilterIndex,
    after: MetadataFilterIndex,
    m: Map<Seq<char>, Seq<(String, JsonValue)>>,
    id: Seq<char>,
    metadata: Seq<(String, JsonValue)>,
)
    requires
        before.wf(),
        indexes(before, m),
        !m.contains_key(id),
        forall|x: Seq<char>| #[trigger] after.contains_id(x) == (before.contains_id(x) || x == id),
        forall|t: Seq<char>, x: Seq<char>| #[trigger]
            after.facet_contains(t, x) == (before.facet_contains(t, x) || (x == id
                && is_metadata_token(metadata, t))),
    ensures
        indexes(after, m.insert(id, metadata)),
{
    assert forall|t: Seq<char>, x: Seq<char>| #[trigger] after.facet_contains(t, x) == (m.insert(id, metadata).contains_key(x)
        && is_metadata_token(m.insert(id, metadata)[x], t)) by {
        assert(before.facet_contains(t, x) == (m.contains_key(x) && is_metadata_token(m[x], t)));
    }
}

} // verus!
