use vstd::prelude::*;

use crate::world::{keys_sorted, lookup};

verus! {

/// Where `key` stands in a list sorted by key: `Ok` with its index, or `Err`
/// with the index at which it would be inserted.
pub open spec fn search_result(s: Seq<(u64, usize)>, key: u64, r: Result<usize, usize>) -> bool {
    match r {
        Ok(i) => i < s.len() && s[i as int].0 == key,
        Err(i) => {
            &&& i <= s.len()
            &&& forall|j: int| 0 <= j < i ==> (#[trigger] s[j]).0 < key
            &&& forall|j: int| i <= j < s.len() ==> (#[trigger] s[j]).0 > key
        },
    }
}

/// Binary search of `key` in `v`, whose keys strictly increase.
pub fn search_key(v: &Vec<(u64, usize)>, key: u64) -> (r: Result<usize, usize>)
    requires
        keys_sorted(v@),
    ensures
        search_result(v@, key, r),
{
    let mut lo: usize = 0;
    let mut hi: usize = v.len();
    while lo < hi
        invariant
            0 <= lo <= hi <= v@.len(),
            keys_sorted(v@),
            forall|j: int| 0 <= j < lo ==> (#[trigger] v@[j]).0 < key,
            forall|j: int| hi <= j < v@.len() ==> (#[trigger] v@[j]).0 > key,
        decreases hi - lo,
    {
        let mid = lo + (hi - lo) / 2;
        let k = v[mid].0;
        if k == key {
            return Ok(mid);
        } else if k < key {
            lo = mid + 1;
        } else {
            hi = mid;
        }
    }
    Err(lo)
}

/// In a list sorted by key, the entry at `i` is what `lookup` finds for its
/// key.
pub proof fn lemma_lookup_at(s: Seq<(u64, usize)>, i: int)
    requires
        keys_sorted(s),
        0 <= i < s.len(),
    ensures
        lookup(s, s[i].0) == Some(s[i].1),
{
    assert(exists|j: int| 0 <= j < s.len() && #[trigger] s[j].0 == s[i].0);
    let j = choose|j: int| 0 <= j < s.len() && #[trigger] s[j].0 == s[i].0;
    if j < i {
    } else if j > i {
    }
}

/// A key that no entry carries is not found.
pub proof fn lemma_lookup_absent(s: Seq<(u64, usize)>, key: u64)
    requires
        forall|j: int| 0 <= j < s.len() ==> (#[trigger] s[j]).0 != key,
    ensures
        lookup(s, key) is None,
{
}

/// The search result decides `lookup`.
pub proof fn lemma_search_lookup(s: Seq<(u64, usize)>, key: u64, r: Result<usize, usize>)
    requires
        keys_sorted(s),
        search_result(s, key, r),
    ensures
        r matches Ok(i) ==> lookup(s, key) == Some(s[i as int].1),
        r is Err ==> lookup(s, key) is None,
{
    match r {
        Ok(i) => lemma_lookup_at(s, i as int),
        Err(i) => {
            assert forall|j: int| 0 <= j < s.len() implies (#[trigger] s[j]).0 != key by {
                if j < i {
                } else {
                }
            }
            lemma_lookup_absent(s, key);
        },
    }
}

/// Inserting a new key at its place keeps the keys sorted and files it, and
/// leaves every other key's lookup as it was.
pub proof fn lemma_insert_at(s: Seq<(u64, usize)>, key: u64, val: usize, p: int)
    requires
        keys_sorted(s),
        0 <= p <= s.len(),
        forall|j: int| 0 <= j < p ==> (#[trigger] s[j]).0 < key,
        forall|j: int| p <= j < s.len() ==> (#[trigger] s[j]).0 > key,
    ensures
        keys_sorted(s.insert(p, (key, val))),
        lookup(s.insert(p, (key, val)), key) == Some(val),
        forall|k: u64| k != key ==> #[trigger] lookup(s.insert(p, (key, val)), k) == lookup(s, k),
{
    let t = s.insert(p, (key, val));
    assert(t[p] == (key, val));
    assert forall|i: int, j: int| 0 <= i < j < t.len() implies t[i].0 < t[j].0 by {
        if i < p {
            assert(t[i] == s[i]);
        } else if i > p {
            assert(t[i] == s[i - 1]);
        }
        if j < p {
            assert(t[j] == s[j]);
        } else if j > p {
            assert(t[j] == s[j - 1]);
        }
    }
    lemma_lookup_at(t, p);
    assert forall|k: u64| k != key implies #[trigger] lookup(t, k) == lookup(s, k) by {
        if exists|j: int| 0 <= j < s.len() && #[trigger] s[j].0 == k {
            let j = choose|j: int| 0 <= j < s.len() && #[trigger] s[j].0 == k;
            lemma_lookup_at(s, j);
            if j < p {
                assert(t[j] == s[j]);
                lemma_lookup_at(t, j);
            } else {
                assert(t[j + 1] == s[j]);
                lemma_lookup_at(t, j + 1);
            }
        } else {
            assert forall|j: int| 0 <= j < t.len() implies (#[trigger] t[j]).0 != k by {
                if j < p {
                    assert(t[j] == s[j]);
                } else if j > p {
                    assert(t[j] == s[j - 1]);
                }
            }
            lemma_lookup_absent(t, k);
        }
    }
}

/// Where `key` stands in a list of cached moves sorted by component.
pub open spec fn edge_search_result(s: Seq<(usize, u32)>, key: usize, r: Result<usize, usize>) -> bool {
    match r {
        Ok(i) => i < s.len() && s[i as int].0 == key,
        Err(i) => {
            &&& i <= s.len()
            &&& forall|j: int| 0 <= j < i ==> (#[trigger] s[j]).0 < key
            &&& forall|j: int| i <= j < s.len() ==> (#[trigger] s[j]).0 > key
        },
    }
}

/// Binary search of component `key` among cached moves sorted by component.
pub fn search_edge(v: &Vec<(usize, u32)>, key: usize) -> (r: Result<usize, usize>)
    requires
        forall|i: int, j: int| 0 <= i < j < v@.len() ==> v@[i].0 < v@[j].0,
    ensures
        edge_search_result(v@, key, r),
{
    let mut lo: usize = 0;
    let mut hi: usize = v.len();
    while lo < hi
        invariant
            0 <= lo <= hi <= v@.len(),
            forall|i: int, j: int| 0 <= i < j < v@.len() ==> v@[i].0 < v@[j].0,
            forall|j: int| 0 <= j < lo ==> (#[trigger] v@[j]).0 < key,
            forall|j: int| hi <= j < v@.len() ==> (#[trigger] v@[j]).0 > key,
        decreases hi - lo,
    {
        let mid = lo + (hi - lo) / 2;
        let k = v[mid].0;
        if k == key {
            return Ok(mid);
        } else if k < key {
            lo = mid + 1;
        } else {
            hi = mid;
        }
    }
    Err(lo)
}

} // verus!
