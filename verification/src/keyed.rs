//! Association vectors keyed by strings.
//!
//! Several components keep small maps from an address or client id to a
//! value (circuit breakers, per-client token buckets, per-backend metrics,
//! UDP sessions). They are stored as vectors of `(String, V)` pairs looked
//! up by a linear scan; the spec functions here give those vectors their
//! map-like reading, always taking the first entry whose key matches.

use vstd::prelude::*;

verus! {

/// Index of the first entry whose key reads `k`; the length if none does.
pub open spec fn key_index<V>(s: Seq<(String, V)>, k: Seq<char>) -> int
    decreases s.len(),
{
    if s.len() == 0 {
        0
    } else if s[0].0@ == k {
        0
    } else {
        1 + key_index(s.drop_first(), k)
    }
}

/// Does some entry carry the key `k`?
pub open spec fn has_key<V>(s: Seq<(String, V)>, k: Seq<char>) -> bool {
    key_index(s, k) < s.len()
}

/// The value of the first entry keyed `k`.
pub open spec fn value_of<V>(s: Seq<(String, V)>, k: Seq<char>) -> V {
    s[key_index(s, k)].1
}

/// The map-like reading of a lookup: the value of the first entry keyed
/// `k`, if any entry is.
pub open spec fn assoc_get<V>(s: Seq<(String, V)>, k: Seq<char>) -> Option<V> {
    if has_key(s, k) {
        Some(value_of(s, k))
    } else {
        None
    }
}

/// No two entries carry the same key.
pub open spec fn distinct_keys<V>(s: Seq<(String, V)>) -> bool {
    forall|i: int, j: int| 0 <= i < j < s.len() ==> s[i].0@ != s[j].0@
}

/// `key_index` is the first match: entries before it do not carry `k`, and
/// the entry at it does whenever one exists at all.
pub broadcast proof fn lemma_key_index_is_first_match<V>(s: Seq<(String, V)>, k: Seq<char>)
    ensures
        0 <= #[trigger] key_index(s, k) <= s.len(),
        key_index(s, k) < s.len() ==> s[key_index(s, k)].0@ == k,
        forall|j: int| 0 <= j < key_index(s, k) ==> s[j].0@ != k,
    decreases s.len(),
{
    if s.len() > 0 && s[0].0@ != k {
        lemma_key_index_is_first_match(s.drop_first(), k);
        assert forall|j: int| 0 <= j < key_index(s, k) implies s[j].0@ != k by {
            if j > 0 {
                assert(s[j] == s.drop_first()[j - 1]);
            }
        }
    }
}

/// Two vectors with the same keys in the same order agree on `key_index`.
pub proof fn lemma_key_index_same_keys<V, W>(
    s1: Seq<(String, V)>,
    s2: Seq<(String, W)>,
    k: Seq<char>,
)
    requires
        s1.len() == s2.len(),
        forall|j: int| 0 <= j < s1.len() ==> s1[j].0@ == s2[j].0@,
    ensures
        key_index(s1, k) == key_index(s2, k),
    decreases s1.len(),
{
    if s1.len() > 0 && s1[0].0@ != k {
        lemma_key_index_same_keys(s1.drop_first(), s2.drop_first(), k);
    }
}

/// Appending an entry leaves lookups of present keys alone; a fresh key is
/// found at the appended position.
pub proof fn lemma_key_index_push<V>(s: Seq<(String, V)>, e: (String, V), k: Seq<char>)
    ensures
        has_key(s, k) ==> key_index(s.push(e), k) == key_index(s, k),
        !has_key(s, k) && e.0@ == k ==> key_index(s.push(e), k) == s.len(),
        !has_key(s, k) && e.0@ != k ==> key_index(s.push(e), k) == s.len() + 1,
    decreases s.len(),
{
    lemma_key_index_is_first_match(s, k);
    if s.len() == 0 {
        assert(s.push(e)[0] == e);
        assert(s.push(e).drop_first() =~= s);
    } else {
        assert(s.push(e)[0] == s[0]);
        if s[0].0@ != k {
            assert(s.push(e).drop_first() =~= s.drop_first().push(e));
            lemma_key_index_push(s.drop_first(), e, k);
        }
    }
}

/// Appending an entry with a fresh key keeps the keys distinct.
pub proof fn lemma_push_distinct<V>(s: Seq<(String, V)>, e: (String, V))
    requires
        distinct_keys(s),
        !has_key(s, e.0@),
    ensures
        distinct_keys(s.push(e)),
{
    lemma_key_index_is_first_match(s, e.0@);
    assert forall|i: int, j: int| 0 <= i < j < s.push(e).len() implies s.push(e)[i].0@ != s.push(
        e,
    )[j].0@ by {
        assert(s.push(e)[i] == s[i]);
        if j == s.len() {
            assert(s.push(e)[j] == e);
            if s[i].0@ == e.0@ {
                assert(key_index(s, e.0@) <= i) by {
                    if key_index(s, e.0@) > i {
                        assert(s[i].0@ != e.0@);
                    }
                }
                assert(false);
            }
        } else {
            assert(s.push(e)[j] == s[j]);
        }
    }
}

/// Find the first entry whose key reads the same as `k`.
pub fn find_key<V>(entries: &Vec<(String, V)>, k: &str) -> (r: Option<usize>)
    ensures
        match r {
            Some(i) => i < entries@.len() && entries@[i as int].0@ == k@ && key_index(
                entries@,
                k@,
            ) == i,
            None => !has_key(entries@, k@),
        },
{
    proof {
        lemma_key_index_is_first_match(entries@, k@);
    }
    let n = entries.len();
    let mut i: usize = 0;
    while i < n
        invariant
            n == entries@.len(),
            i <= n,
            forall|j: int| 0 <= j < i ==> entries@[j].0@ != k@,
        decreases n - i,
    {
        if str_eq(entries[i].0.as_str(), k) {
            proof {
                lemma_key_index_is_first_match(entries@, k@);
            }
            return Some(i);
        }
        i = i + 1;
    }
    proof {
        lemma_key_index_is_first_match(entries@, k@);
    }
    None
}

/// Do two string slices read the same?
pub fn str_eq(a: &str, b: &str) -> (r: bool)
    ensures
        r == (a@ == b@),
{
    let x: String = a.to_owned();
    let y: String = b.to_owned();
    x == y
}

} // verus!
