//! A bundle: the components an entity is spawned with, at most one per type.
use vstd::prelude::*;
use crate::search::{distinct_keys, is_insertion_point, key_index, strictly_sorted};
use crate::types::{ComponentInfo, RawComponent, TypeKey};

verus! {

/// The type keys of a sequence of components, in order.
pub open spec fn raw_keys<V>(s: Seq<RawComponent<V>>) -> Seq<TypeKey> {
    s.map_values(|r: RawComponent<V>| r.info.type_id)
}

/// The components of `s` as a map from type key to value.
pub open spec fn raw_map<V>(s: Seq<RawComponent<V>>) -> Map<TypeKey, V> {
    Map::new(
        |t: TypeKey| raw_keys(s).contains(t),
        |t: TypeKey| s[key_index(raw_keys(s), t)].value,
    )
}

/// Inserting a component of a new type anywhere into a sequence without
/// repeated types adds exactly that entry to its map.
pub proof fn lemma_raw_map_insert<V>(s: Seq<RawComponent<V>>, p: int, x: RawComponent<V>)
    requires
        distinct_keys(raw_keys(s)),
        !raw_keys(s).contains(x.info.type_id),
        0 <= p <= s.len(),
    ensures
        raw_keys(s.insert(p, x)) == raw_keys(s).insert(p, x.info.type_id),
        distinct_keys(raw_keys(s.insert(p, x))),
        raw_map(s.insert(p, x)) == raw_map(s).insert(x.info.type_id, x.value),
{
    let t = s.insert(p, x);
    let ks = raw_keys(s);
    let kt = raw_keys(t);
    assert(kt =~= ks.insert(p, x.info.type_id));
    assert forall|i: int, j: int| 0 <= i < kt.len() && 0 <= j < kt.len() && i != j implies kt[i] != kt[j] by {
        if i == p {
            if j < p {
                assert(ks[j] == kt[j]);
            } else {
                assert(ks[j - 1] == kt[j]);
            }
        } else if j == p {
            if i < p {
                assert(ks[i] == kt[i]);
            } else {
                assert(ks[i - 1] == kt[i]);
            }
        } else {
            let ii = if i < p { i } else { i - 1 };
            let jj = if j < p { j } else { j - 1 };
            assert(ks[ii] == kt[i] && ks[jj] == kt[j]);
        }
    }
    let m1 = raw_map(t);
    let m2 = raw_map(s).insert(x.info.type_id, x.value);
    assert forall|k: TypeKey| m1.dom().contains(k) <==> m2.dom().contains(k) by {
        if kt.contains(k) {
            let i = choose|i: int| 0 <= i < kt.len() && kt[i] == k;
            if i != p {
                let ii = if i < p { i } else { i - 1 };
                assert(ks[ii] == k);
            }
        }
        if ks.contains(k) {
            let i = choose|i: int| 0 <= i < ks.len() && ks[i] == k;
            let ii = if i < p { i } else { i + 1 };
            assert(kt[ii] == k);
        }
        if k == x.info.type_id {
            assert(kt[p] == k);
        }
    }
    assert forall|k: TypeKey| m1.dom().contains(k) implies m1[k] == m2[k] by {
        let i = key_index(kt, k);
        assert(0 <= i < kt.len() && kt[i] == k);
        if k == x.info.type_id {
            assert(kt[p] == k);
            assert(i == p);
        } else {
            assert(i != p);
            let ii = if i < p { i } else { i - 1 };
            assert(ks[ii] == k);
            let j = key_index(ks, k);
            assert(0 <= j < ks.len() && ks[j] == k);
            assert(j == ii);
        }
    }
    assert(m1 =~= m2);
}

/// Binary search by type key in components sorted by strictly increasing key:
/// `Ok(i)` where component `i` has key `k`, or `Err(p)` with `p` the insertion
/// point of an absent `k`.
pub fn raw_binary_search<V>(v: &Vec<RawComponent<V>>, k: TypeKey) -> (r: Result<usize, usize>)
    requires
        strictly_sorted(raw_keys(v@)),
    ensures
        match r {
            Ok(i) => i < v@.len() && raw_keys(v@)[i as int] == k,
            Err(p) => !raw_keys(v@).contains(k) && is_insertion_point(raw_keys(v@), k, p as int),
        },
{
    let ghost ks = raw_keys(v@);
    let mut lo: usize = 0;
    let mut hi: usize = v.len();
    while lo < hi
        invariant
            ks == raw_keys(v@),
            0 <= lo <= hi <= v@.len(),
            strictly_sorted(ks),
            forall|i: int| 0 <= i < lo ==> ks[i] < k,
            forall|i: int| hi <= i < v@.len() ==> k < ks[i],
        decreases hi - lo,
    {
        let mid = lo + (hi - lo) / 2;
        let key = v[mid].info.type_id;
        assert(ks[mid as int] == key);
        if key == k {
            return Ok(mid);
        } else if key < k {
            lo = mid + 1;
        } else {
            hi = mid;
        }
    }
    proof {
        assert forall|i: int| 0 <= i < ks.len() implies ks[i] != k by {
            if i < lo {
            } else {
            }
        }
    }
    Err(lo)
}

/// Removing the component at `p` from a sequence without repeated types
/// removes exactly its type from the map.
pub proof fn lemma_raw_map_remove<V>(s: Seq<RawComponent<V>>, p: int)
    requires
        distinct_keys(raw_keys(s)),
        0 <= p < s.len(),
    ensures
        raw_keys(s.remove(p)) == raw_keys(s).remove(p),
        distinct_keys(raw_keys(s.remove(p))),
        raw_map(s.remove(p)) == raw_map(s).remove(s[p].info.type_id),
        raw_map(s).contains_key(s[p].info.type_id),
        raw_map(s)[s[p].info.type_id] == s[p].value,
{
    let r = s.remove(p);
    let x = s[p];
    let ks = raw_keys(s);
    assert(raw_keys(r) =~= ks.remove(p));
    assert forall|i: int, j: int| 0 <= i < raw_keys(r).len() && 0 <= j < raw_keys(r).len() && i != j implies raw_keys(r)[i] != raw_keys(r)[j] by {
        let ii = if i < p { i } else { i + 1 };
        let jj = if j < p { j } else { j + 1 };
        assert(ks[ii] == raw_keys(r)[i] && ks[jj] == raw_keys(r)[j]);
    }
    assert(!raw_keys(r).contains(x.info.type_id)) by {
        if raw_keys(r).contains(x.info.type_id) {
            let i = choose|i: int| 0 <= i < raw_keys(r).len() && raw_keys(r)[i] == x.info.type_id;
            let ii = if i < p { i } else { i + 1 };
            assert(ks[ii] == ks[p]);
        }
    }
    assert(r.insert(p, x) =~= s);
    lemma_raw_map_insert(r, p, x);
    assert(raw_map(r) =~= raw_map(s).remove(x.info.type_id));
}

/// Components to spawn an entity with, sorted by type key, one per type.
pub struct Bundle<V> {
    components: Vec<RawComponent<V>>,
}

impl<V> Bundle<V> {
    /// The components, in increasing order of type key.
    pub closed spec fn entries(&self) -> Seq<RawComponent<V>> {
        self.components@
    }

    /// The type keys, in increasing order.
    pub open spec fn keys(&self) -> Seq<TypeKey> {
        raw_keys(self.entries())
    }

    /// The components as a map from type key to value.
    pub open spec fn view_map(&self) -> Map<TypeKey, V> {
        raw_map(self.entries())
    }

    /// Keys are strictly increasing.
    pub open spec fn wf(&self) -> bool {
        strictly_sorted(self.keys())
    }

    /// Builds a bundle from `components`, in any order. Gives `None` when two
    /// components have the same type key.
    pub fn new(components: Vec<RawComponent<V>>) -> (r: Option<Self>)
        ensures
            r is Some <==> distinct_keys(raw_keys(components@)),
            r matches Some(b) ==> b.wf() && b.view_map() == raw_map(components@)
                && b.entries().len() == components@.len(),
    {
        let mut rest = components;
        let ghost orig = rest@;
        let mut out: Vec<RawComponent<V>> = Vec::new();
        assert(raw_map(out@) =~= raw_map(orig.subrange(orig.len() as int, orig.len() as int)));
        while rest.len() > 0
            invariant
                orig == components@,
                rest@ == orig.subrange(0, rest@.len() as int),
                rest@.len() <= orig.len(),
                out@.len() + rest@.len() == orig.len(),
                strictly_sorted(raw_keys(out@)),
                distinct_keys(raw_keys(orig.subrange(rest@.len() as int, orig.len() as int))),
                raw_map(out@) == raw_map(orig.subrange(rest@.len() as int, orig.len() as int)),
            decreases rest@.len(),
        {
            let ghost n = rest@.len() as int;
            let ghost suffix = orig.subrange(n, orig.len() as int);
            let x = rest.pop().unwrap();
            assert(x == orig[n - 1]);
            let k = x.info.type_id;
            let mut p: usize = 0;
            while p < out.len() && out[p].info.type_id < k
                invariant
                    p <= out@.len(),
                    forall|i: int| 0 <= i < p ==> raw_keys(out@)[i] < k,
                decreases out@.len() - p,
            {
                p = p + 1;
            }
            proof {
                crate::search::lemma_sorted_distinct(raw_keys(out@));
                assert(raw_map(out@).dom() == raw_map(suffix).dom());
                assert forall|t: TypeKey| raw_keys(out@).contains(t) <==> raw_keys(suffix).contains(t) by {
                    assert(raw_map(out@).dom().contains(t) == raw_keys(out@).contains(t));
                    assert(raw_map(suffix).dom().contains(t) == raw_keys(suffix).contains(t));
                }
            }
            if p < out.len() && out[p].info.type_id == k {
                proof {
                    assert(raw_keys(out@)[p as int] == k);
                    assert(raw_keys(out@).contains(k));
                    assert(raw_keys(suffix).contains(k));
                    let j = choose|j: int| 0 <= j < suffix.len() && raw_keys(suffix)[j] == k;
                    let ko = raw_keys(orig);
                    assert(suffix[j] == orig[n + j]);
                    assert(ko[n - 1] == k);
                    assert(ko[n + j] == raw_keys(suffix)[j]);
                    assert(ko[n - 1] == ko[n + j]);
                    assert(!distinct_keys(ko));
                }
                return None;
            }
            proof {
                assert(is_insertion_point(raw_keys(out@), k, p as int)) by {
                    assert forall|i: int| p <= i < raw_keys(out@).len() implies k < raw_keys(out@)[i] by {
                        if i > p {
                            assert(raw_keys(out@)[p as int] < raw_keys(out@)[i]);
                        }
                    }
                }
                assert(!raw_keys(out@).contains(k)) by {
                    if raw_keys(out@).contains(k) {
                        let j = choose|j: int| 0 <= j < raw_keys(out@).len() && raw_keys(out@)[j] == k;
                        assert(j < p || j >= p);
                    }
                }
                lemma_raw_map_insert(out@, p as int, x);
                crate::search::lemma_insert_sorted(raw_keys(out@), k, p as int);
                lemma_raw_map_insert(suffix, 0, x);
                assert(orig.subrange(n - 1, orig.len() as int) =~= suffix.insert(0, x));
            }
            out.insert(p, x);
        }
        proof {
            assert(orig.subrange(0, orig.len() as int) =~= orig);
        }
        Some(Bundle { components: out })
    }

    /// The type keys, in increasing order.
    pub fn component_ids(&self) -> (ids: Vec<TypeKey>)
        ensures
            ids@ == self.keys(),
    {
        let mut ids: Vec<TypeKey> = Vec::new();
        let mut i: usize = 0;
        while i < self.components.len()
            invariant
                i <= self.components@.len(),
                ids@ == self.keys().subrange(0, i as int),
            decreases self.components@.len() - i,
        {
            ids.push(self.components[i].info.type_id);
            assert(ids@ =~= self.keys().subrange(0, i + 1));
            i = i + 1;
        }
        assert(ids@ =~= self.keys());
        ids
    }

    /// The type descriptions, in increasing order of type key.
    pub fn component_infos(&self) -> (infos: Vec<ComponentInfo>)
        ensures
            infos@.len() == self.keys().len(),
            forall|i: int| 0 <= i < infos@.len() ==> infos@[i].type_id == self.keys()[i],
    {
        let mut infos: Vec<ComponentInfo> = Vec::new();
        let mut i: usize = 0;
        while i < self.components.len()
            invariant
                i <= self.components@.len(),
                infos@.len() == i,
                forall|j: int| 0 <= j < i ==> infos@[j].type_id == self.keys()[j],
            decreases self.components@.len() - i,
        {
            infos.push(self.components[i].info);
            i = i + 1;
        }
        infos
    }

    /// Gives up the components, in increasing order of type key.
    pub fn into_components(self) -> (v: Vec<RawComponent<V>>)
        ensures
            v@ == self.entries(),
    {
        self.components
    }
}

} // verus!
