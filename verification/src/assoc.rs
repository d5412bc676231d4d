//! Lists of `(key, value)` pairs with distinct keys, read as finite maps.
//! They stand where a map keyed by text is wanted: vstd specifies std's
//! `HashMap` and `BTreeMap` only for keys whose hashing or ordering it models,
//! and `String` is not among them.

use vstd::prelude::*;
use crate::text::{str_eq, chars_of, string_from_chars};

verus! {

/// The map described by the pairs; a later pair wins over an earlier one.
pub open spec fn pairs_map<V>(s: Seq<(String, V)>) -> Map<Seq<char>, V>
    decreases s.len(),
{
    if s.len() == 0 {
        Map::empty()
    } else {
        pairs_map(s.drop_last()).insert(s.last().0@, s.last().1)
    }
}

/// No key occurs twice.
pub open spec fn distinct_keys<V>(s: Seq<(String, V)>) -> bool {
    forall|i: int, j: int| 0 <= i < j < s.len() ==> (#[trigger] s[i]).0@ != (#[trigger] s[j]).0@
}

/// Lookup in a list with distinct keys finds the unique pair.
pub proof fn lemma_pairs_lookup<V>(s: Seq<(String, V)>, k: Seq<char>)
    requires
        distinct_keys(s),
    ensures
        pairs_map(s).contains_key(k) <==> exists|i: int| 0 <= i < s.len() && (#[trigger] s[i]).0@ == k,
        forall|i: int| 0 <= i < s.len() && (#[trigger] s[i]).0@ == k ==> pairs_map(s)[k] == s[i].1,
    decreases s.len(),
{
    if s.len() > 0 {
        let t = s.drop_last();
        assert(distinct_keys(t));
        lemma_pairs_lookup(t, k);
        if pairs_map(s).contains_key(k) && s.last().0@ != k {
            let i = choose|i: int| 0 <= i < t.len() && (#[trigger] t[i]).0@ == k;
            assert(s[i] == t[i]);
        }
        assert forall|i: int| 0 <= i < s.len() && (#[trigger] s[i]).0@ == k implies pairs_map(s)[k] == s[i].1 by {
            if i < s.len() - 1 {
                assert(t[i] == s[i]);
            }
        }
        if exists|i: int| 0 <= i < s.len() && (#[trigger] s[i]).0@ == k {
            let i = choose|i: int| 0 <= i < s.len() && (#[trigger] s[i]).0@ == k;
            if i < s.len() - 1 {
                assert(t[i] == s[i]);
            }
        }
    }
}

proof fn lemma_pairs_update<V>(s: Seq<(String, V)>, i: int, p: (String, V))
    requires
        distinct_keys(s),
        0 <= i < s.len(),
        s[i].0@ == p.0@,
    ensures
        distinct_keys(s.update(i, p)),
        pairs_map(s.update(i, p)) == pairs_map(s).insert(p.0@, p.1),
    decreases s.len(),
{
    let u = s.update(i, p);
    assert(distinct_keys(u)) by {
        assert forall|a: int, b: int| 0 <= a < b < u.len() implies (#[trigger] u[a]).0@ != (#[trigger] u[b]).0@ by {
            assert(s[a].0@ != s[b].0@);
        }
    }
    if i == s.len() - 1 {
        assert(u.drop_last() == s.drop_last());
    } else {
        let t = s.drop_last();
        assert(distinct_keys(t));
        lemma_pairs_update(t, i, p);
        assert(u.drop_last() == t.update(i, p));
        assert(s.last().0@ != p.0@);
        assert(pairs_map(u) =~= pairs_map(s).insert(p.0@, p.1));
    }
}

/// Position of `key` in the list.
pub fn pairs_position<V>(s: &Vec<(String, V)>, key: &str) -> (r: Option<usize>)
    ensures
        r matches Some(i) ==> i < s@.len() && s@[i as int].0@ == key@,
        r is None ==> forall|i: int| 0 <= i < s@.len() ==> (#[trigger] s@[i]).0@ != key@,
{
    let mut i: usize = 0;
    while i < s.len()
        invariant
            i <= s@.len(),
            forall|k: int| 0 <= k < i ==> (#[trigger] s@[k]).0@ != key@,
        decreases s.len() - i,
    {
        if str_eq(s[i].0.as_str(), key) {
            return Some(i);
        }
        i = i + 1;
    }
    None
}

/// Set `key` to `value`, replacing an existing pair or appending a new one.
pub fn pairs_insert<V>(s: &mut Vec<(String, V)>, key: &str, value: V)
    requires
        distinct_keys(old(s)@),
    ensures
        distinct_keys(final(s)@),
        pairs_map(final(s)@) == pairs_map(old(s)@).insert(key@, value),
{
    let k = string_from_chars(chars_of(key).as_slice());
    match pairs_position(s, key) {
        Some(i) => {
            proof {
                lemma_pairs_update(s@, i as int, (k, value));
            }
            s.set(i, (k, value));
        },
        None => {
            s.push((k, value));
            proof {
                assert(s@.drop_last() == old(s)@);
            }
        },
    }
}

} // verus!
