//! Searching sorted key sequences and small lists.
use vstd::prelude::*;

verus! {

/// `s` is strictly increasing: sorted, with no key twice.
pub open spec fn strictly_sorted(s: Seq<u64>) -> bool {
    forall|i: int, j: int| 0 <= i < j < s.len() ==> s[i] < s[j]
}

/// `p` is where `k` would be inserted into the sorted `s`.
pub open spec fn is_insertion_point(s: Seq<u64>, k: u64, p: int) -> bool {
    &&& 0 <= p <= s.len()
    &&& forall|i: int| 0 <= i < p ==> s[i] < k
    &&& forall|i: int| p <= i < s.len() ==> k < s[i]
}

/// Binary search in a strictly increasing vector: `Ok(i)` where `v[i] == k`,
/// or `Err(p)` with `p` the insertion point of an absent `k`.
pub fn binary_search(v: &Vec<u64>, k: u64) -> (r: Result<usize, usize>)
    requires
        strictly_sorted(v@),
    ensures
        match r {
            Ok(i) => i < v@.len() && v@[i as int] == k,
            Err(p) => !v@.contains(k) && is_insertion_point(v@, k, p as int),
        },
{
    let mut lo: usize = 0;
    let mut hi: usize = v.len();
    while lo < hi
        invariant
            0 <= lo <= hi <= v@.len(),
            strictly_sorted(v@),
            forall|i: int| 0 <= i < lo ==> v@[i] < k,
            forall|i: int| hi <= i < v@.len() ==> k < v@[i],
        decreases hi - lo,
    {
        let mid = lo + (hi - lo) / 2;
        if v[mid] == k {
            return Ok(mid);
        } else if v[mid] < k {
            lo = mid + 1;
        } else {
            hi = mid;
        }
    }
    proof {
        assert forall|i: int| 0 <= i < v@.len() implies v@[i] != k by {
            if i < lo {
            } else {
            }
        }
    }
    Err(lo)
}

/// Whether `v` holds `x`.
pub fn contains_u32(v: &Vec<u32>, x: u32) -> (r: bool)
    ensures
        r == v@.contains(x),
{
    let mut i: usize = 0;
    while i < v.len()
        invariant
            i <= v@.len(),
            forall|j: int| 0 <= j < i ==> v@[j] != x,
        decreases v@.len() - i,
    {
        if v[i] == x {
            assert(v@[i as int] == x);
            return true;
        }
        i = i + 1;
    }
    false
}

/// A copy of the keys `v`.
pub fn copy_keys(v: &Vec<u64>) -> (r: Vec<u64>)
    ensures
        r@ == v@,
{
    let mut r: Vec<u64> = Vec::new();
    let mut i: usize = 0;
    while i < v.len()
        invariant
            i <= v@.len(),
            r@ == v@.subrange(0, i as int),
        decreases v@.len() - i,
    {
        r.push(v[i]);
        assert(r@ =~= v@.subrange(0, i + 1));
        i = i + 1;
    }
    assert(r@ =~= v@);
    r
}

/// Whether `a` and `b` hold the same keys in the same order.
pub fn keys_equal(a: &Vec<u64>, b: &Vec<u64>) -> (r: bool)
    ensures
        r == (a@ == b@),
{
    if a.len() != b.len() {
        return false;
    }
    let mut i: usize = 0;
    while i < a.len()
        invariant
            i <= a@.len(),
            a@.len() == b@.len(),
            forall|j: int| 0 <= j < i ==> a@[j] == b@[j],
        decreases a@.len() - i,
    {
        if a[i] != b[i] {
            return false;
        }
        i = i + 1;
    }
    assert(a@ =~= b@);
    true
}

} // verus!

verus! {

/// No key occurs twice in `s`.
pub open spec fn distinct_keys(s: Seq<u64>) -> bool {
    forall|i: int, j: int| 0 <= i < s.len() && 0 <= j < s.len() && i != j ==> s[i] != s[j]
}

/// The position of key `t` in `s` (meaningful when `s` holds `t` once).
pub open spec fn key_index(s: Seq<u64>, t: u64) -> int {
    choose|i: int| 0 <= i < s.len() && s[i] == t
}

/// In a sequence without repeated keys, the position of `s[c]` is `c`.
pub proof fn lemma_key_index(s: Seq<u64>, c: int)
    requires
        distinct_keys(s),
        0 <= c < s.len(),
    ensures
        key_index(s, s[c]) == c,
{
    assert(s[c] == s[c]);
}

/// A strictly increasing sequence has no repeated key.
pub proof fn lemma_sorted_distinct(s: Seq<u64>)
    requires
        strictly_sorted(s),
    ensures
        distinct_keys(s),
{
    assert forall|i: int, j: int| 0 <= i < s.len() && 0 <= j < s.len() && i != j implies s[i] != s[j] by {
        if i < j {
        } else {
        }
    }
}

/// Inserting a key at its insertion point keeps a sequence strictly increasing.
pub proof fn lemma_insert_sorted(s: Seq<u64>, k: u64, p: int)
    requires
        strictly_sorted(s),
        is_insertion_point(s, k, p),
    ensures
        strictly_sorted(s.insert(p, k)),
        s.insert(p, k).len() == s.len() + 1,
{
    let t = s.insert(p, k);
    assert forall|i: int, j: int| 0 <= i < j < t.len() implies t[i] < t[j] by {
        if j < p {
        } else if j == p {
        } else if i < p {
        } else if i == p {
        } else {
        }
    }
}

/// Removing a key keeps a sequence strictly increasing.
pub proof fn lemma_remove_sorted(s: Seq<u64>, p: int)
    requires
        strictly_sorted(s),
        0 <= p < s.len(),
    ensures
        strictly_sorted(s.remove(p)),
{
    let t = s.remove(p);
    assert forall|i: int, j: int| 0 <= i < j < t.len() implies t[i] < t[j] by {
        if j < p {
        } else if i < p {
            assert(t[i] == s[i] && t[j] == s[j + 1]);
        } else {
            assert(t[i] == s[i + 1] && t[j] == s[j + 1]);
        }
    }
}

/// In a strictly increasing sequence the insertion point of a key is unique.
pub proof fn lemma_insertion_point_unique(s: Seq<u64>, k: u64, p: int, q: int)
    requires
        is_insertion_point(s, k, p),
        is_insertion_point(s, k, q),
    ensures
        p == q,
{
    if p < q {
        assert(s[p] < k);
        assert(k < s[p]);
    } else if q < p {
        assert(s[q] < k);
        assert(k < s[q]);
    }
}

/// If `s.insert(p, k)` is strictly increasing, `p` is the insertion point of `k`.
pub proof fn lemma_sorted_insert_is_insertion_point(s: Seq<u64>, k: u64, p: int)
    requires
        0 <= p <= s.len(),
        strictly_sorted(s.insert(p, k)),
    ensures
        is_insertion_point(s, k, p),
        strictly_sorted(s),
{
    let t = s.insert(p, k);
    assert forall|i: int| 0 <= i < p implies s[i] < k by {
        assert(t[i] == s[i] && t[p] == k);
    }
    assert forall|i: int| p <= i < s.len() implies k < s[i] by {
        assert(t[i + 1] == s[i] && t[p] == k);
    }
    assert forall|i: int, j: int| 0 <= i < j < s.len() implies s[i] < s[j] by {
        let ii = if i < p { i } else { i + 1 };
        let jj = if j < p { j } else { j + 1 };
        assert(t[ii] == s[i] && t[jj] == s[j]);
    }
}

} // verus!
