//! JSON values as the library reads them: the metadata of a record and the
//! metadata filter of a query.

use vstd::prelude::*;
use vstd::string::StringSliceAdditionalSpecFns;

verus! {

/// A JSON value.
///
/// A number is held as the decimal text that the JSON writer produces for
/// it; an object as its entries in ascending key order, each key once.
pub enum JsonValue {
    Null,
    Bool(bool),
    Number(String),
    Str(String),
    Array(Vec<JsonValue>),
    Object(Vec<(String, JsonValue)>),
}

/// Whether a number's text is that of a floating-point zero (`0.0` or `-0.0`),
/// the two texts that denote equal numbers.
pub open spec fn is_float_zero_text(t: Seq<char>) -> bool {
    t == "0.0"@ || t == "-0.0"@
}

/// Equality of two numbers given by their texts: the same text, or both zero.
pub open spec fn number_text_eq(a: Seq<char>, b: Seq<char>) -> bool {
    a == b || (is_float_zero_text(a) && is_float_zero_text(b))
}

/// Equality of JSON values: as numbers compare, element by element for
/// arrays, entry by entry (key and value) for objects.
pub open spec fn json_eq(a: JsonValue, b: JsonValue) -> bool
    decreases a, 1nat,
{
    match a {
        JsonValue::Null => b is Null,
        JsonValue::Bool(x) => b is Bool && b->Bool_0 == x,
        JsonValue::Number(x) => b is Number && number_text_eq(x@, b->Number_0@),
        JsonValue::Str(x) => b is Str && x@ == b->Str_0@,
        JsonValue::Array(xs) => b is Array && json_seq_eq(xs@, b->Array_0@),
        JsonValue::Object(xs) => b is Object && json_entries_eq(xs@, b->Object_0@),
    }
}

/// Element-wise equality of two sequences of JSON values.
pub open spec fn json_seq_eq(xs: Seq<JsonValue>, ys: Seq<JsonValue>) -> bool
    decreases xs, 0nat,
{
    if xs.len() != ys.len() {
        false
    } else if xs.len() == 0 {
        true
    } else {
        json_seq_eq(xs.drop_last(), ys.drop_last()) && json_eq(xs.last(), ys.last())
    }
}

/// Entry-wise equality of two sequences of object entries.
pub open spec fn json_entries_eq(xs: Seq<(String, JsonValue)>, ys: Seq<(String, JsonValue)>) -> bool
    decreases xs, 0nat,
{
    if xs.len() != ys.len() {
        false
    } else if xs.len() == 0 {
        true
    } else {
        &&& json_entries_eq(xs.drop_last(), ys.drop_last())
        &&& xs.last().0@ == ys.last().0@
        &&& json_eq(xs.last().1, ys.last().1)
    }
}

/// `json_seq_eq` holds exactly when the lengths agree and each pair of
/// elements is equal.
pub proof fn lemma_json_seq_eq(xs: Seq<JsonValue>, ys: Seq<JsonValue>)
    ensures
        json_seq_eq(xs, ys) <==> (xs.len() == ys.len() && forall|i: int|
            0 <= i < xs.len() ==> #[trigger] json_eq(xs[i], ys[i])),
    decreases xs.len(),
{
    if xs.len() == ys.len() && xs.len() > 0 {
        let n = xs.len() - 1;
        let (xd, yd) = (xs.drop_last(), ys.drop_last());
        lemma_json_seq_eq(xd, yd);
        if json_seq_eq(xs, ys) {
            assert forall|i: int| 0 <= i < xs.len() implies #[trigger] json_eq(xs[i], ys[i]) by {
                if i < n {
                    assert(json_eq(xd[i], yd[i]));
                }
            }
        }
        if forall|i: int| 0 <= i < xs.len() ==> #[trigger] json_eq(xs[i], ys[i]) {
            assert forall|i: int| 0 <= i < n implies #[trigger] json_eq(xd[i], yd[i]) by {
                assert(json_eq(xs[i], ys[i]));
            }
            assert(json_eq(xs[n], ys[n]));
        }
    }
}

/// `json_entries_eq` holds exactly when the lengths agree and each pair of
/// entries has equal keys and equal values.
pub proof fn lemma_json_entries_eq(xs: Seq<(String, JsonValue)>, ys: Seq<(String, JsonValue)>)
    ensures
        json_entries_eq(xs, ys) <==> {
            &&& xs.len() == ys.len()
            &&& forall|i: int| 0 <= i < xs.len() ==> #[trigger] xs[i].0@ == ys[i].0@
            &&& forall|i: int| 0 <= i < xs.len() ==> #[trigger] json_eq(xs[i].1, ys[i].1)
        },
    decreases xs.len(),
{
    if xs.len() == ys.len() && xs.len() > 0 {
        let n = xs.len() - 1;
        let (xd, yd) = (xs.drop_last(), ys.drop_last());
        lemma_json_entries_eq(xd, yd);
        assert(forall|i: int| 0 <= i < n ==> #[trigger] xd[i] == xs[i] && yd[i] == ys[i]);
        if json_entries_eq(xs, ys) {
            assert forall|i: int| 0 <= i < xs.len() implies #[trigger] xs[i].0@ == ys[i].0@ by {
                if i < n {
                    assert(xd[i].0@ == yd[i].0@);
                }
            }
            assert forall|i: int| 0 <= i < xs.len() implies #[trigger] json_eq(xs[i].1, ys[i].1) by {
                if i < n {
                    assert(json_eq(xd[i].1, yd[i].1));
                }
            }
        }
        if (forall|i: int| 0 <= i < xs.len() ==> #[trigger] xs[i].0@ == ys[i].0@) && (forall|i: int|
            0 <= i < xs.len() ==> #[trigger] json_eq(xs[i].1, ys[i].1)) {
            assert forall|i: int| 0 <= i < n implies #[trigger] xd[i].0@ == yd[i].0@ by {
                assert(xs[i].0@ == ys[i].0@);
            }
            assert forall|i: int| 0 <= i < n implies #[trigger] json_eq(xd[i].1, yd[i].1) by {
                assert(json_eq(xs[i].1, ys[i].1));
            }
            assert(json_eq(xs[n].1, ys[n].1));
            assert(xs[n].0@ == ys[n].0@);
        }
    }
}

/// Whether two string slices hold the same characters.
pub fn str_equal(a: &str, b: &str) -> (r: bool)
    ensures
        r == (a@ == b@),
{
    broadcast use vstd::utf8::encode_utf8_decode_utf8;

    let x = a.as_bytes();
    let y = b.as_bytes();
    if x.len() != y.len() {
        proof {
            if a@ == b@ {
                assert(x@ == y@);
            }
        }
        return false;
    }
    let mut i: usize = 0;
    while i < x.len()
        invariant
            x@ == a.spec_bytes(),
            y@ == b.spec_bytes(),
            x@.len() == y@.len(),
            i <= x@.len(),
            forall|j: int| 0 <= j < i ==> x@[j] == y@[j],
        decreases x@.len() - i,
    {
        if x[i] != y[i] {
            return false;
        }
        i = i + 1;
    }
    assert(x@ =~= y@);
    assert(vstd::utf8::decode_utf8(x@) == a@);
    true
}

/// Whether a number's text is `0.0` or `-0.0`.
fn is_float_zero(t: &str) -> (r: bool)
    ensures
        r == is_float_zero_text(t@),
{
    str_equal(t, "0.0") || str_equal(t, "-0.0")
}

/// Whether two number texts denote equal numbers.
pub fn number_equal(a: &str, b: &str) -> (r: bool)
    ensures
        r == number_text_eq(a@, b@),
{
    str_equal(a, b) || (is_float_zero(a) && is_float_zero(b))
}

/// Two JSON arrays are equal exactly when they have the same length and
/// are equal element by element; an array never equals a value of another
/// kind.
pub proof fn lemma_json_eq_arrays(a: JsonValue, b: JsonValue)
    requires
        a is Array,
    ensures
        json_eq(a, b) <==> (b is Array && a->Array_0@.len() == b->Array_0@.len() && forall|i: int|
            0 <= i < a->Array_0@.len() ==> #[trigger] json_eq(a->Array_0@[i], b->Array_0@[i])),
{
    if b is Array {
        lemma_json_seq_eq(a->Array_0@, b->Array_0@);
    }
}

/// Two JSON strings are equal exactly when their texts are.
pub proof fn lemma_json_eq_strings(a: JsonValue, b: JsonValue)
    requires
        a is Str,
    ensures
        json_eq(a, b) <==> (b is Str && a->Str_0@ == b->Str_0@),
{
}

/// Whether two JSON values are equal.
pub fn json_equal(a: &JsonValue, b: &JsonValue) -> (r: bool)
    ensures
        r == json_eq(*a, *b),
    decreases a,
{
    match (a, b) {
        (JsonValue::Null, JsonValue::Null) => true,
        (JsonValue::Bool(x), JsonValue::Bool(y)) => *x == *y,
        (JsonValue::Number(x), JsonValue::Number(y)) => number_equal(x.as_str(), y.as_str()),
        (JsonValue::Str(x), JsonValue::Str(y)) => str_equal(x.as_str(), y.as_str()),
        (JsonValue::Array(xs), JsonValue::Array(ys)) => {
            proof {
                lemma_json_seq_eq(xs@, ys@);
            }
            if xs.len() != ys.len() {
                return false;
            }
            let mut i: usize = 0;
            while i < xs.len()
                invariant
                    *a == JsonValue::Array(*xs),
                    *b == JsonValue::Array(*ys),
                    xs@.len() == ys@.len(),
                    i <= xs@.len(),
                    forall|j: int| 0 <= j < i ==> #[trigger] json_eq(xs@[j], ys@[j]),
                decreases xs@.len() - i,
            {
                proof {
                    assert(decreases_to!(*a => (*a)->Array_0));
                    assert(decreases_to!((*xs) => xs@));
                    assert(decreases_to!(xs@ => xs@[i as int]));
                }
                if !json_equal(&xs[i], &ys[i]) {
                    assert(!json_eq(xs@[i as int], ys@[i as int]));
                    proof {
                        lemma_json_seq_eq(xs@, ys@);
                    }
                    assert(!json_eq(*a, *b));
                    return false;
                }
                i = i + 1;
            }
            proof {
                lemma_json_seq_eq(xs@, ys@);
            }
            assert(json_eq(*a, *b));
            true
        },
        (JsonValue::Object(xs), JsonValue::Object(ys)) => {
            proof {
                lemma_json_entries_eq(xs@, ys@);
            }
            if xs.len() != ys.len() {
                return false;
            }
            let mut i: usize = 0;
            while i < xs.len()
                invariant
                    *a == JsonValue::Object(*xs),
                    *b == JsonValue::Object(*ys),
                    xs@.len() == ys@.len(),
                    i <= xs@.len(),
                    forall|j: int| 0 <= j < i ==> #[trigger] xs@[j].0@ == ys@[j].0@,
                    forall|j: int| 0 <= j < i ==> #[trigger] json_eq(xs@[j].1, ys@[j].1),
                decreases xs@.len() - i,
            {
                proof {
                    assert(decreases_to!(*a => (*a)->Object_0));
                    assert(decreases_to!((*xs) => xs@));
                    assert(decreases_to!(xs@ => xs@[i as int]));
                    assert(decreases_to!(xs@[i as int] => xs@[i as int].1));
                }
                if !str_equal(xs[i].0.as_str(), ys[i].0.as_str()) {
                    proof {
                        lemma_json_entries_eq(xs@, ys@);
                    }
                    assert(!json_eq(*a, *b));
                    return false;
                }
                if !json_equal(&xs[i].1, &ys[i].1) {
                    assert(!json_eq(xs@[i as int].1, ys@[i as int].1));
                    proof {
                        lemma_json_entries_eq(xs@, ys@);
                    }
                    assert(!json_eq(*a, *b));
                    return false;
                }
                i = i + 1;
            }
            proof {
                lemma_json_entries_eq(xs@, ys@);
            }
            assert(json_eq(*a, *b));
            true
        },
        _ => false,
    }
}


/// The escape of one character inside a JSON string: `"` and `\` behind a
/// backslash, the short escapes of backspace, tab, line feed, form feed and
/// carriage return, any other control character below U+0020 as `\u00` and
/// two lowercase hex digits, and every other character as itself.
pub open spec fn json_escape_char(c: char) -> Seq<char> {
    if c == '"' {
        seq!['\\', '"']
    } else if c == '\\' {
        seq!['\\', '\\']
    } else if c == '\u{8}' {
        seq!['\\', 'b']
    } else if c == '\t' {
        seq!['\\', 't']
    } else if c == '\n' {
        seq!['\\', 'n']
    } else if c == '\u{c}' {
        seq!['\\', 'f']
    } else if c == '\r' {
        seq!['\\', 'r']
    } else if (c as u32) < 0x20 {
        seq!['\\', 'u', '0', '0', hex_digit((c as u32) / 16), hex_digit((c as u32) % 16)]
    } else {
        seq![c]
    }
}

/// A lowercase hexadecimal digit.
pub open spec fn hex_digit(d: u32) -> char {
    if d < 10 {
        (('0' as u32) + d) as char
    } else {
        (('a' as u32) + d - 10) as char
    }
}

/// The escaped characters of a string.
pub open spec fn json_escaped(s: Seq<char>) -> Seq<char>
    decreases s.len(),
{
    if s.len() == 0 {
        Seq::empty()
    } else {
        json_escape_char(s[0]) + json_escaped(s.drop_first())
    }
}

/// A string written as JSON: between double quotes, each character escaped.
pub open spec fn json_quoted(s: Seq<char>) -> Seq<char> {
    seq!['"'] + json_escaped(s) + seq!['"']
}

/// `serde_json::to_string` on a string slice: the string between double
/// quotes, each character escaped as `json_escape_char` says. Writing a
/// string into memory does not fail.
#[verifier::external_body]
pub(crate) fn json_string_literal(s: &str) -> (r: Result<String, serde_json::Error>)
    ensures
        r is Ok,
        r matches Ok(t) ==> t@ == json_quoted(s@),
{
    serde_json::to_string(s)
}


/// Whether `text` is the JSON text of an object: what `serde_json` reads as
/// a map from strings to JSON values.
pub uninterp spec fn json_object_text(text: Seq<u8>) -> bool;

/// `serde_json::from_slice` into a map from strings to JSON values (the
/// form metadata takes): succeeds exactly when `text` reads as such a map;
/// the map read is dropped, as only the outcome is needed.
#[verifier::external_body]
pub(crate) fn check_json_object(text: &[u8]) -> (r: Result<(), serde_json::Error>)
    ensures
        r is Ok <==> json_object_text(text@),
{
    match serde_json::from_slice::<std::collections::BTreeMap<String, serde_json::Value>>(text) {
        Ok(_) => Ok(()),
        Err(error) => Err(error),
    }
}

/// A character that is written as itself inside a JSON string.
pub open spec fn plain_char(c: char) -> bool {
    c != '"' && c != '\\' && (c as u32) >= 0x20
}

proof fn lemma_escape_char_shape(c: char)
    ensures
        json_escape_char(c).len() >= 1,
        plain_char(c) ==> json_escape_char(c) == seq![c],
        !plain_char(c) ==> json_escape_char(c).len() >= 2 && json_escape_char(c)[0] == '\\',
        forall|i: int| 0 <= i < json_escape_char(c).len() ==> #[trigger] json_escape_char(c)[i] != '\u{1f}',
{
    let e = json_escape_char(c);
    if !plain_char(c) && !(c == '"' || c == '\\' || c == '\u{8}' || c == '\t' || c == '\n' || c == '\u{c}' || c == '\r') {
        let hi = (c as u32) / 16;
        let lo = (c as u32) % 16;
        assert(hi < 2);
        assert(lo < 16);
        assert(hex_digit(hi) != '\u{1f}');
        assert(hex_digit(lo) != '\u{1f}');
    }
}

proof fn lemma_hex_digit_injective(a: u32, b: u32)
    requires
        a < 16,
        b < 16,
        hex_digit(a) == hex_digit(b),
    ensures
        a == b,
{
}

/// Two escaped characters that start equal sequences are the same character.
proof fn lemma_escape_prefix_free(c: char, d: char, r1: Seq<char>, r2: Seq<char>)
    requires
        json_escape_char(c) + r1 == json_escape_char(d) + r2,
    ensures
        c == d,
{
    lemma_escape_char_shape(c);
    lemma_escape_char_shape(d);
    let e = json_escape_char(c);
    let f = json_escape_char(d);
    let x = e + r1;
    assert(x[0] == e[0]);
    assert(x[0] == f[0]);
    if plain_char(c) {
        assert(plain_char(d));
    } else {
        assert(!plain_char(d));
        assert(x[1] == e[1]);
        assert(x[1] == f[1]);
        let cu = c as u32;
        let du = d as u32;
        let named_c = c == '"' || c == '\\' || c == '\u{8}' || c == '\t' || c == '\n' || c == '\u{c}' || c == '\r';
        let named_d = d == '"' || d == '\\' || d == '\u{8}' || d == '\t' || d == '\n' || d == '\u{c}' || d == '\r';
        if !named_c && !named_d {
            assert(e.len() == 6 && f.len() == 6);
            assert(x[4] == e[4] && x[4] == f[4]);
            assert(x[5] == e[5] && x[5] == f[5]);
            lemma_hex_digit_injective(cu / 16, du / 16);
            lemma_hex_digit_injective(cu % 16, du % 16);
            assert(cu == du);
        }
    }
}

/// The escaped characters of a string are never U+001F.
pub proof fn lemma_escaped_no_unit_separator(s: Seq<char>)
    ensures
        !json_escaped(s).contains('\u{1f}'),
    decreases s.len(),
{
    if s.len() > 0 {
        lemma_escaped_no_unit_separator(s.drop_first());
        lemma_escape_char_shape(s[0]);
        let e = json_escape_char(s[0]);
        let r = json_escaped(s.drop_first());
        assert forall|i: int| 0 <= i < (e + r).len() implies (e + r)[i] != '\u{1f}' by {
            if i >= e.len() {
                assert((e + r)[i] == r[i - e.len()]);
            }
        }
    }
}

/// Escaping is one-to-one.
pub proof fn lemma_escaped_injective(s1: Seq<char>, s2: Seq<char>)
    requires
        json_escaped(s1) == json_escaped(s2),
    ensures
        s1 == s2,
    decreases s1.len() + s2.len(),
{
    if s1.len() == 0 && s2.len() == 0 {
        assert(s1 =~= s2);
    } else if s1.len() == 0 {
        lemma_escape_char_shape(s2[0]);
    } else if s2.len() == 0 {
        lemma_escape_char_shape(s1[0]);
    } else {
        let e = json_escape_char(s1[0]);
        let f = json_escape_char(s2[0]);
        lemma_escape_prefix_free(s1[0], s2[0], json_escaped(s1.drop_first()), json_escaped(s2.drop_first()));
        assert(json_escaped(s1.drop_first()) =~= json_escaped(s1).subrange(e.len() as int, json_escaped(s1).len() as int));
        assert(json_escaped(s2.drop_first()) =~= json_escaped(s2).subrange(f.len() as int, json_escaped(s2).len() as int));
        lemma_escaped_injective(s1.drop_first(), s2.drop_first());
        assert(s1 =~= seq![s1[0]] + s1.drop_first());
        assert(s2 =~= seq![s2[0]] + s2.drop_first());
    }
}

} // verus!
