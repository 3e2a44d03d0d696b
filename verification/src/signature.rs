use vstd::prelude::*;

use crate::archetype::strictly_sorted;

verus! {

/// The sorted signature `sig` with component `c` added, and the position
/// `c` takes in it.
pub fn sig_with(sig: &Vec<usize>, c: usize) -> (r: (Vec<usize>, usize))
    requires
        strictly_sorted(sig@),
        !sig@.contains(c),
    ensures
        r.1 <= sig@.len(),
        r.0@ == sig@.insert(r.1 as int, c),
        strictly_sorted(r.0@),
{
    let n = sig.len();
    let mut p: usize = 0;
    while p < n && sig[p] < c
        invariant
            n == sig@.len(),
            0 <= p <= n,
            forall|j: int| 0 <= j < p ==> sig@[j] < c,
        decreases n - p,
    {
        p = p + 1;
    }
    proof {
        assert forall|j: int| p <= j < n implies sig@[j] > c by {
            assert(sig@[p as int] >= c);
            if sig@[p as int] == c {
                assert(sig@.contains(c));
            }
            if j > p {
                assert(sig@[p as int] < sig@[j]);
            }
        }
    }
    let mut out = sig.clone();
    proof {
        assert(out@ =~= sig@);
    }
    out.insert(p, c);
    assert(out@ =~= sig@.insert(p as int, c));
    proof {
        let t = sig@.insert(p as int, c);
        assert forall|a: int, b: int| 0 <= a < b < t.len() implies t[a] < t[b] by {
            if a < p {
                assert(t[a] == sig@[a]);
            } else if a > p {
                assert(t[a] == sig@[a - 1]);
            }
            if b < p {
                assert(t[b] == sig@[b]);
            } else if b > p {
                assert(t[b] == sig@[b - 1]);
            }
        }
    }
    (out, p)
}

/// The sorted signature `sig` without its element at position `p`.
pub fn sig_without(sig: &Vec<usize>, p: usize) -> (r: Vec<usize>)
    requires
        strictly_sorted(sig@),
        p < sig@.len(),
    ensures
        r@ == sig@.remove(p as int),
        strictly_sorted(r@),
{
    let mut out = sig.clone();
    proof {
        assert(out@ =~= sig@);
    }
    out.remove(p);
    proof {
        let t = sig@.remove(p as int);
        assert forall|a: int, b: int| 0 <= a < b < t.len() implies t[a] < t[b] by {
            if a >= p {
                assert(t[a] == sig@[a + 1]);
            }
            if b >= p {
                assert(t[b] == sig@[b + 1]);
            }
        }
    }
    out
}

} // verus!
