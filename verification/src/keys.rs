//! Keys under which records are stored: one prefix per collection
//! (`namespace / index / partition`), the record's id after it.

use vstd::prelude::*;
use vstd::string::*;

verus! {

broadcast use vstd::string::group_string_axioms;

/// The prefix of every record key of a collection.
pub open spec fn spec_record_prefix(namespace: Seq<char>, index: Seq<char>, partition: Seq<char>) -> Seq<char> {
    "vector/"@ + namespace + "/"@ + index + "/"@ + partition + "/record/"@
}

/// The key of a record.
pub open spec fn spec_record_key(
    namespace: Seq<char>,
    index: Seq<char>,
    partition: Seq<char>,
    id: Seq<char>,
) -> Seq<char> {
    spec_record_prefix(namespace, index, partition) + id
}

/// The key of a collection among the approximate indexes.
pub open spec fn spec_scope_key(namespace: Seq<char>, index: Seq<char>, partition: Seq<char>) -> Seq<char> {
    namespace + "/"@ + index + "/"@ + partition
}

/// The position just after the last `/` of `s`, or 0 if there is none.
pub open spec fn after_last_slash(s: Seq<char>) -> int
    decreases s.len(),
{
    if s.len() == 0 {
        0
    } else if s.last() == '/' {
        s.len() as int
    } else {
        after_last_slash(s.drop_last())
    }
}

/// The id in a record key: what follows its last `/`, or the whole key.
pub open spec fn spec_record_id_from_key(key: Seq<char>) -> Seq<char> {
    key.subrange(after_last_slash(key), key.len() as int)
}

proof fn lemma_after_last_slash_bounds(s: Seq<char>)
    ensures
        0 <= after_last_slash(s) <= s.len(),
        after_last_slash(s) > 0 ==> s[after_last_slash(s) - 1] == '/',
        forall|j: int| after_last_slash(s) <= j < s.len() ==> s[j] != '/',
    decreases s.len(),
{
    if s.len() > 0 && s.last() != '/' {
        let d = s.drop_last();
        lemma_after_last_slash_bounds(d);
        assert forall|j: int| after_last_slash(s) <= j < s.len() implies s[j] != '/' by {
            if j < s.len() - 1 {
                assert(d[j] == s[j]);
            }
        }
    }
}

/// The prefix of every record key of a collection.
pub fn record_prefix(namespace: &str, index: &str, partition: &str) -> (r: String)
    ensures
        r@ == spec_record_prefix(namespace@, index@, partition@),
{
    let mut s = String::from_str("vector/");
    s.append(namespace);
    s.append("/");
    s.append(index);
    s.append("/");
    s.append(partition);
    s.append("/record/");
    s
}

/// The key of a record.
pub fn record_key(namespace: &str, index: &str, partition: &str, id: &str) -> (r: String)
    ensures
        r@ == spec_record_key(namespace@, index@, partition@, id@),
{
    let mut s = record_prefix(namespace, index, partition);
    s.append(id);
    s
}

/// The key of a collection among the approximate indexes.
pub fn scope_key(namespace: &str, index: &str, partition: &str) -> (r: String)
    ensures
        r@ == spec_scope_key(namespace@, index@, partition@),
{
    let mut s = String::from_str(namespace);
    s.append("/");
    s.append(index);
    s.append("/");
    s.append(partition);
    s
}

/// The id in a record key: what follows its last `/`.
pub fn record_id_from_key(key: &str) -> (r: String)
    ensures
        r@ == spec_record_id_from_key(key@),
{
    let n = key.unicode_len();
    let mut i: usize = n;
    loop
        invariant
            n == key@.len(),
            i <= n,
            forall|j: int| i <= j < n ==> key@[j] != '/',
        ensures
            n == key@.len(),
            i <= n,
            forall|j: int| i <= j < n ==> key@[j] != '/',
            i > 0 ==> key@[i - 1] == '/',
        decreases i,
    {
        if i == 0 {
            break;
        }
        if key.get_char(i - 1) == '/' {
            break;
        }
        i = i - 1;
    }
    proof {
        lemma_after_last_slash_bounds(key@);
        lemma_after_last_slash_is_last(key@, i as int);
    }
    key.substring_char(i, n).to_string()
}

proof fn lemma_after_last_slash_is_last(s: Seq<char>, i: int)
    requires
        0 <= i <= s.len(),
        i > 0 ==> s[i - 1] == '/',
        forall|j: int| i <= j < s.len() ==> s[j] != '/',
    ensures
        after_last_slash(s) == i,
    decreases s.len(),
{
    if s.len() > 0 && i < s.len() {
        assert(s.last() != '/');
        lemma_after_last_slash_is_last(s.drop_last(), i);
    }
}


/// A record's id reads back from its key, for any id without a `/` (as
/// every accepted id is).
pub proof fn lemma_record_id_from_key(
    namespace: Seq<char>,
    index: Seq<char>,
    partition: Seq<char>,
    id: Seq<char>,
)
    requires
        !id.contains('/'),
    ensures
        spec_record_id_from_key(spec_record_key(namespace, index, partition, id)) == id,
{
    let prefix = spec_record_prefix(namespace, index, partition);
    let key = prefix + id;
    reveal_strlit("/record/");
    assert(prefix[prefix.len() - 1] == '/');
    assert(key[prefix.len() - 1] == '/');
    assert forall|j: int| prefix.len() <= j < key.len() implies key[j] != '/' by {
        assert(key[j] == id[j - prefix.len()]);
    }
    lemma_after_last_slash_is_last(key, prefix.len() as int);
    assert(key.subrange(prefix.len() as int, key.len() as int) =~= id);
}

/// Two texts that each start with a `/`-free part followed by a `/` agree
/// on both sides of that first `/`.
proof fn lemma_split_at_first_slash(a1: Seq<char>, r1: Seq<char>, a2: Seq<char>, r2: Seq<char>)
    requires
        !a1.contains('/'),
        !a2.contains('/'),
        a1 + seq!['/'] + r1 == a2 + seq!['/'] + r2,
    ensures
        a1 == a2,
        r1 == r2,
{
    let s1 = a1 + seq!['/'] + r1;
    let s2 = a2 + seq!['/'] + r2;
    if a1.len() < a2.len() {
        assert(s1[a1.len() as int] == '/');
        assert(s2[a1.len() as int] == a2[a1.len() as int]);
        assert(a2.contains(a2[a1.len() as int]));
    } else if a2.len() < a1.len() {
        assert(s2[a2.len() as int] == '/');
        assert(s1[a2.len() as int] == a1[a2.len() as int]);
        assert(a1.contains(a1[a2.len() as int]));
    }
    assert(a1 =~= s1.subrange(0, a1.len() as int));
    assert(a2 =~= s2.subrange(0, a2.len() as int));
    assert(r1 =~= s1.subrange(a1.len() as int + 1, s1.len() as int));
    assert(r2 =~= s2.subrange(a2.len() as int + 1, s2.len() as int));
}

/// Distinct collections never share a scope key: for segments without a
/// `/` (as every accepted segment is), equal scope keys mean equal
/// namespaces, indexes and partitions.
pub proof fn lemma_scope_key_distinct(
    n1: Seq<char>,
    i1: Seq<char>,
    p1: Seq<char>,
    n2: Seq<char>,
    i2: Seq<char>,
    p2: Seq<char>,
)
    requires
        !n1.contains('/'),
        !i1.contains('/'),
        !n2.contains('/'),
        !i2.contains('/'),
        spec_scope_key(n1, i1, p1) == spec_scope_key(n2, i2, p2),
    ensures
        n1 == n2,
        i1 == i2,
        p1 == p2,
{
    reveal_strlit("/");
    assert(spec_scope_key(n1, i1, p1) =~= n1 + seq!['/'] + (i1 + seq!['/'] + p1));
    assert(spec_scope_key(n2, i2, p2) =~= n2 + seq!['/'] + (i2 + seq!['/'] + p2));
    lemma_split_at_first_slash(n1, i1 + seq!['/'] + p1, n2, i2 + seq!['/'] + p2);
    lemma_split_at_first_slash(i1, p1, i2, p2);
}

/// A prefix of the form `a1 / r1`, of a text of the form `a2 / r2`, where
/// neither `a1` nor `a2` holds a `/`: `a1` is `a2` and `r1` is a prefix of
/// `r2`.
proof fn lemma_split_prefix_at_slash(a1: Seq<char>, r1: Seq<char>, a2: Seq<char>, r2: Seq<char>)
    requires
        !a1.contains('/'),
        !a2.contains('/'),
        (a1 + seq!['/'] + r1).is_prefix_of(a2 + seq!['/'] + r2),
    ensures
        a1 == a2,
        r1.is_prefix_of(r2),
{
    let s1 = a1 + seq!['/'] + r1;
    let s2 = a2 + seq!['/'] + r2;
    assert forall|j: int| 0 <= j < s1.len() implies s1[j] == s2[j] by {
        assert(s2.subrange(0, s1.len() as int)[j] == s2[j]);
    }
    if a1.len() < a2.len() {
        assert(s1[a1.len() as int] == '/');
        assert(s2[a1.len() as int] == a2[a1.len() as int]);
        assert(a2.contains(a2[a1.len() as int]));
    } else if a2.len() < a1.len() {
        assert(s2[a2.len() as int] == '/');
        assert(s1[a2.len() as int] == a1[a2.len() as int]);
        assert(a1.contains(a1[a2.len() as int]));
    }
    assert forall|j: int| 0 <= j < a1.len() implies a1[j] == a2[j] by {
        assert(s1[j] == s2[j]);
    }
    assert(a1 =~= a2);
    assert forall|j: int| 0 <= j < r1.len() implies r1[j] == r2[j] by {
        assert(s1[a1.len() + 1 + j] == s2[a1.len() + 1 + j]);
    }
    assert(r1 =~= r2.subrange(0, r1.len() as int));
}

/// A scan of one collection's record prefix never reaches the records of
/// another: for segments without a `/` (as every accepted segment is), a
/// record key of one collection starts with the record prefix of another
/// only when the two are the same collection.
pub proof fn lemma_record_prefix_separates(
    n1: Seq<char>,
    i1: Seq<char>,
    p1: Seq<char>,
    n2: Seq<char>,
    i2: Seq<char>,
    p2: Seq<char>,
    id: Seq<char>,
)
    requires
        !n1.contains('/'),
        !i1.contains('/'),
        !p1.contains('/'),
        !n2.contains('/'),
        !i2.contains('/'),
        !p2.contains('/'),
        spec_record_prefix(n1, i1, p1).is_prefix_of(spec_record_key(n2, i2, p2, id)),
    ensures
        n1 == n2,
        i1 == i2,
        p1 == p2,
{
    reveal_strlit("vector/");
    reveal_strlit("/");
    reveal_strlit("/record/");
    let v = "vector/"@;
    let t = "record/"@;
    reveal_strlit("record/");
    assert("/record/"@ =~= seq!['/'] + t);
    let x1 = n1 + seq!['/'] + (i1 + seq!['/'] + (p1 + seq!['/'] + t));
    let x2 = n2 + seq!['/'] + (i2 + seq!['/'] + (p2 + seq!['/'] + (t + id)));
    assert(spec_record_prefix(n1, i1, p1) =~= v + x1);
    assert(spec_record_key(n2, i2, p2, id) =~= v + x2);
    assert forall|j: int| 0 <= j < x1.len() implies x1[j] == x2[j] by {
        assert((v + x1)[v.len() + j] == (v + x2).subrange(0, (v + x1).len() as int)[v.len() + j]);
    }
    assert(x1 =~= x2.subrange(0, x1.len() as int));
    lemma_split_prefix_at_slash(n1, i1 + seq!['/'] + (p1 + seq!['/'] + t), n2, i2 + seq!['/'] + (p2 + seq!['/'] + (t + id)));
    lemma_split_prefix_at_slash(i1, p1 + seq!['/'] + t, i2, p2 + seq!['/'] + (t + id));
    lemma_split_prefix_at_slash(p1, t, p2, t + id);
}

} // verus!
