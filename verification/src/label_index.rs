//! Labels attached to registry entities, per value type.
use vstd::prelude::*;
use std::collections::HashMap;
use crate::types::TypeKey;

verus! {

broadcast use vstd::std_specs::hash::group_hash_axioms;

/// Identifies an entity of a [`crate::registry::ResourceRegistry`].
#[derive(Clone, Copy, PartialEq, Eq, Structural, Debug, Hash, PartialOrd, Ord)]
pub struct EntityId(pub u64);

/// `s` without the occurrences of `id`, in order.
pub open spec fn without(s: Seq<EntityId>, id: EntityId) -> Seq<EntityId>
    decreases s.len(),
{
    if s.len() == 0 {
        Seq::empty()
    } else if s.last() == id {
        without(s.drop_last(), id)
    } else {
        without(s.drop_last(), id).push(s.last())
    }
}

/// No label lists an entity twice, and every listed entity is below `next`,
/// the identifier the registry hands out next.
pub open spec fn labels_fresh(lm: Map<(TypeKey, Seq<char>), Seq<EntityId>>, next: u64) -> bool {
    forall|k: (TypeKey, Seq<char>)| #[trigger] lm.contains_key(k) ==> {
        &&& forall|i: int, j: int| 0 <= i < j < lm[k].len() ==> lm[k][i] != lm[k][j]
        &&& forall|i: int| 0 <= i < lm[k].len() ==> (#[trigger] lm[k][i]).0 < next
    }
}

/// Every entity listed under a label has that label recorded as its own,
/// so it is listed under no other label.
pub open spec fn labels_owned(
    lm: Map<(TypeKey, Seq<char>), Seq<EntityId>>,
    om: Map<u64, (TypeKey, Seq<char>)>,
) -> bool {
    forall|k: (TypeKey, Seq<char>), i: int| #![trigger lm[k][i]] lm.contains_key(k) && 0 <= i < lm[k].len()
        ==> om.contains_key(lm[k][i].0) && om[lm[k][i].0] == k
}

/// The label lists `lm` once entity `id` is taken off the label `om` records
/// for it: a label left with no entity disappears.
pub open spec fn unlabel_map(
    lm: Map<(TypeKey, Seq<char>), Seq<EntityId>>,
    om: Map<u64, (TypeKey, Seq<char>)>,
    id: EntityId,
) -> Map<(TypeKey, Seq<char>), Seq<EntityId>> {
    if om.contains_key(id.0) && lm.contains_key(om[id.0]) {
        let k = om[id.0];
        let rest = without(lm[k], id);
        if rest.len() == 0 {
            lm.remove(k)
        } else {
            lm.insert(k, rest)
        }
    } else {
        lm
    }
}

/// The tables behind [`LabelIndex`].
pub struct LabelTable {
    /// (value type, label, entities); no (type, label) pair occurs twice and
    /// no entity list is empty.
    by_label: Vec<(TypeKey, String, Vec<EntityId>)>,
    /// Entity -> (value type, label), used to clean up on removal.
    by_id: HashMap<u64, (TypeKey, String)>,
}

impl LabelTable {
    /// The entities under each (value type, label).
    pub closed spec fn label_map(&self) -> Map<(TypeKey, Seq<char>), Seq<EntityId>> {
        Map::new(
            |k: (TypeKey, Seq<char>)| exists|i: int| 0 <= i < self.by_label@.len() && #[trigger] Self::key_of(self.by_label@[i]) == k,
            |k: (TypeKey, Seq<char>)| self.by_label@[Self::index_of(self.by_label@, k)].2@,
        )
    }

    /// The (value type, label) last given to each entity.
    pub closed spec fn owner_map(&self) -> Map<u64, (TypeKey, Seq<char>)> {
        Map::new(
            |id: u64| self.by_id@.contains_key(id),
            |id: u64| (self.by_id@[id].0, self.by_id@[id].1@),
        )
    }

    spec fn key_of(e: (TypeKey, String, Vec<EntityId>)) -> (TypeKey, Seq<char>) {
        (e.0, e.1@)
    }

    spec fn index_of(s: Seq<(TypeKey, String, Vec<EntityId>)>, k: (TypeKey, Seq<char>)) -> int {
        choose|i: int| 0 <= i < s.len() && #[trigger] Self::key_of(s[i]) == k
    }

    /// No (type, label) pair is listed twice, and no list is empty.
    pub closed spec fn wf(&self) -> bool {
        &&& forall|i: int, j: int| 0 <= i < self.by_label@.len() && 0 <= j < self.by_label@.len() && i != j
            ==> Self::key_of(#[trigger] self.by_label@[i]) != Self::key_of(#[trigger] self.by_label@[j])
        &&& forall|i: int| 0 <= i < self.by_label@.len() ==> (#[trigger] self.by_label@[i]).2@.len() > 0
    }

    proof fn lemma_index_of(s: Seq<(TypeKey, String, Vec<EntityId>)>, i: int)
        requires
            0 <= i < s.len(),
            forall|a: int, b: int| 0 <= a < s.len() && 0 <= b < s.len() && a != b
                ==> Self::key_of(#[trigger] s[a]) != Self::key_of(#[trigger] s[b]),
        ensures
            Self::index_of(s, Self::key_of(s[i])) == i,
    {
        assert(Self::key_of(s[i]) == Self::key_of(s[i]));
    }

    /// An empty index.
    pub fn new() -> (l: Self)
        ensures
            l.wf(),
            l.label_map() == Map::<(TypeKey, Seq<char>), Seq<EntityId>>::empty(),
            l.owner_map() == Map::<u64, (TypeKey, Seq<char>)>::empty(),
    {
        let l = LabelTable { by_label: Vec::new(), by_id: HashMap::new() };
        assert(l.label_map() =~= Map::<(TypeKey, Seq<char>), Seq<EntityId>>::empty());
        assert(l.owner_map() =~= Map::<u64, (TypeKey, Seq<char>)>::empty());
        l
    }

    /// Where (type_id, label) is listed, if it is.
    fn find(&self, type_id: TypeKey, label: &str) -> (r: Option<usize>)
        requires
            self.wf(),
        ensures
            match r {
                Some(i) => i < self.by_label@.len() && Self::key_of(self.by_label@[i as int]) == (type_id, label@),
                None => !self.label_map().contains_key((type_id, label@)),
            },
    {
        let label_string = label.to_owned();
        let mut i: usize = 0;
        while i < self.by_label.len()
            invariant
                i <= self.by_label@.len(),
                label_string@ == label@,
                forall|j: int| 0 <= j < i ==> Self::key_of(#[trigger] self.by_label@[j]) != (type_id, label@),
            decreases self.by_label@.len() - i,
        {
            if self.by_label[i].0 == type_id && self.by_label[i].1 == label_string {
                return Some(i);
            }
            i = i + 1;
        }
        None
    }

    /// Labels entity `id`, whose value has type `type_id`, with `label`.
    pub fn insert(&mut self, type_id: TypeKey, label: &str, id: EntityId)
        requires
            old(self).wf(),
        ensures
            final(self).wf(),
            final(self).label_map() == old(self).label_map().insert(
                (type_id, label@),
                (if old(self).label_map().contains_key((type_id, label@)) {
                    old(self).label_map()[(type_id, label@)]
                } else {
                    Seq::<EntityId>::empty()
                }).push(id),
            ),
            final(self).owner_map() == old(self).owner_map().insert(id.0, (type_id, label@)),
    {
        let ghost old_self = *self;
        let ghost k = (type_id, label@);
        match self.find(type_id, label) {
            Some(i) => {
                let mut entry = self.by_label.remove(i);
                entry.2.push(id);
                self.by_label.insert(i, entry);
                proof {
                    let o = old_self.by_label@;
                    let n = self.by_label@;
                    assert(n == o.update(i as int, n[i as int]));
                    Self::lemma_index_of(o, i as int);
                    assert(old_self.label_map().contains_key(k));
                    assert forall|a: int, b: int| 0 <= a < n.len() && 0 <= b < n.len() && a != b
                        implies Self::key_of(#[trigger] n[a]) != Self::key_of(#[trigger] n[b]) by {
                        assert(Self::key_of(n[a]) == Self::key_of(o[a]));
                        assert(Self::key_of(n[b]) == Self::key_of(o[b]));
                    }
                    assert forall|j: int| 0 <= j < n.len() implies (#[trigger] n[j]).2@.len() > 0 by {
                        assert(o[j].2@.len() > 0);
                    }
                    let m2 = old_self.label_map().insert(k, old_self.label_map()[k].push(id));
                    assert forall|kk: (TypeKey, Seq<char>)| self.label_map().dom().contains(kk) <==> m2.dom().contains(kk) by {
                        if self.label_map().dom().contains(kk) {
                            let j = choose|j: int| 0 <= j < n.len() && #[trigger] Self::key_of(n[j]) == kk;
                            assert(Self::key_of(o[j]) == kk);
                        }
                        if old_self.label_map().dom().contains(kk) {
                            let j = choose|j: int| 0 <= j < o.len() && #[trigger] Self::key_of(o[j]) == kk;
                            assert(Self::key_of(n[j]) == kk);
                        }
                    }
                    assert forall|kk: (TypeKey, Seq<char>)| #[trigger] self.label_map().dom().contains(kk) implies self.label_map()[kk] == m2[kk] by {
                        let j = Self::index_of(n, kk);
                        assert(0 <= j < n.len() && Self::key_of(n[j]) == kk);
                        Self::lemma_index_of(n, j);
                        Self::lemma_index_of(o, j);
                        assert(Self::key_of(o[j]) == kk);
                    }
                    assert(self.label_map() =~= m2);
                }
            },
            None => {
                let mut ids: Vec<EntityId> = Vec::new();
                ids.push(id);
                self.by_label.push((type_id, label.to_owned(), ids));
                proof {
                    let o = old_self.by_label@;
                    let n = self.by_label@;
                    assert forall|a: int, b: int| 0 <= a < n.len() && 0 <= b < n.len() && a != b
                        implies Self::key_of(#[trigger] n[a]) != Self::key_of(#[trigger] n[b]) by {
                        if a < o.len() && b < o.len() {
                            assert(n[a] == o[a] && n[b] == o[b]);
                        } else if a < o.len() {
                            assert(n[a] == o[a]);
                            assert(!old_self.label_map().contains_key(k));
                        } else {
                            assert(n[b] == o[b]);
                            assert(!old_self.label_map().contains_key(k));
                        }
                    }
                    assert forall|j: int| 0 <= j < n.len() implies (#[trigger] n[j]).2@.len() > 0 by {
                        if j < o.len() {
                            assert(n[j] == o[j]);
                        }
                    }
                    let m2 = old_self.label_map().insert(k, Seq::<EntityId>::empty().push(id));
                    assert forall|kk: (TypeKey, Seq<char>)| self.label_map().dom().contains(kk) <==> m2.dom().contains(kk) by {
                        if self.label_map().dom().contains(kk) {
                            let j = choose|j: int| 0 <= j < n.len() && #[trigger] Self::key_of(n[j]) == kk;
                            if j < o.len() {
                                assert(Self::key_of(o[j]) == kk);
                            }
                        }
                        if old_self.label_map().dom().contains(kk) {
                            let j = choose|j: int| 0 <= j < o.len() && #[trigger] Self::key_of(o[j]) == kk;
                            assert(Self::key_of(n[j]) == kk);
                        }
                        if kk == k {
                            assert(Self::key_of(n[o.len() as int]) == kk);
                        }
                    }
                    assert forall|kk: (TypeKey, Seq<char>)| #[trigger] self.label_map().dom().contains(kk) implies self.label_map()[kk] == m2[kk] by {
                        let j = Self::index_of(n, kk);
                        assert(0 <= j < n.len() && Self::key_of(n[j]) == kk);
                        if j < o.len() {
                            Self::lemma_index_of(o, j);
                            assert(Self::key_of(o[j]) == kk);
                            assert(n[j] == o[j]);
                        } else {
                            assert(n[j].2@ =~= Seq::<EntityId>::empty().push(id));
                        }
                    }
                    assert(self.label_map() =~= m2);
                }
            },
        }
        self.by_id.insert(id.0, (type_id, label.to_owned()));
        proof {
            assert(self.owner_map() =~= old_self.owner_map().insert(id.0, (type_id, label@)));
        }
    }

    /// The entities labelled `label` whose value has type `type_id`, in the
    /// order they were labelled.
    pub fn get(&self, type_id: TypeKey, label: &str) -> (ids: &[EntityId])
        requires
            self.wf(),
        ensures
            ids@ == (if self.label_map().contains_key((type_id, label@)) {
                self.label_map()[(type_id, label@)]
            } else {
                Seq::<EntityId>::empty()
            }),
    {
        match self.find(type_id, label) {
            Some(i) => {
                proof {
                    Self::lemma_index_of(self.by_label@, i as int);
                }
                self.by_label[i].2.as_slice()
            },
            None => &[],
        }
    }

    /// A copy of `ids` without `id`.
    fn without_id(ids: &Vec<EntityId>, id: EntityId) -> (out: Vec<EntityId>)
        ensures
            out@ == without(ids@, id),
    {
        let mut out: Vec<EntityId> = Vec::new();
        let mut i: usize = 0;
        while i < ids.len()
            invariant
                i <= ids@.len(),
                out@ == without(ids@.subrange(0, i as int), id),
            decreases ids@.len() - i,
        {
            assert(ids@.subrange(0, i + 1).drop_last() =~= ids@.subrange(0, i as int));
            if ids[i] != id {
                out.push(ids[i]);
            }
            i = i + 1;
        }
        assert(ids@.subrange(0, ids@.len() as int) =~= ids@);
        out
    }

    /// Takes the label off entity `id`: forgets its label and drops it from
    /// the list of that label, dropping the list when it becomes empty.
    pub fn remove(&mut self, id: EntityId)
        requires
            old(self).wf(),
        ensures
            final(self).wf(),
            final(self).owner_map() == old(self).owner_map().remove(id.0),
            final(self).label_map() == (if old(self).owner_map().contains_key(id.0)
                && old(self).label_map().contains_key(old(self).owner_map()[id.0]) {
                let k = old(self).owner_map()[id.0];
                let rest = without(old(self).label_map()[k], id);
                if rest.len() == 0 {
                    old(self).label_map().remove(k)
                } else {
                    old(self).label_map().insert(k, rest)
                }
            } else {
                old(self).label_map()
            }),
    {
        let ghost old_self = *self;
        let removed = self.by_id.remove(&id.0);
        proof {
            assert(self.owner_map() =~= old_self.owner_map().remove(id.0));
        }
        match removed {
            Some((type_id, label)) => {
                let ghost k = (type_id, label@);
                match self.find(type_id, label.as_str()) {
                    Some(i) => {
                        let entry = self.by_label.remove(i);
                        let kept = Self::without_id(&entry.2, id);
                        let ghost o = old_self.by_label@;
                        proof {
                            Self::lemma_index_of(o, i as int);
                            assert(old_self.label_map().contains_key(k));
                            assert(old_self.label_map()[k] == entry.2@);
                        }
                        if kept.len() > 0 {
                            self.by_label.insert(i, (entry.0, entry.1, kept));
                            proof {
                                let n = self.by_label@;
                                assert(n == o.update(i as int, n[i as int]));
                                assert forall|a: int, b: int| 0 <= a < n.len() && 0 <= b < n.len() && a != b
                                    implies Self::key_of(#[trigger] n[a]) != Self::key_of(#[trigger] n[b]) by {
                                    assert(Self::key_of(n[a]) == Self::key_of(o[a]));
                                    assert(Self::key_of(n[b]) == Self::key_of(o[b]));
                                }
                                assert forall|j: int| 0 <= j < n.len() implies (#[trigger] n[j]).2@.len() > 0 by {
                                    assert(o[j].2@.len() > 0);
                                }
                                let m2 = old_self.label_map().insert(k, without(old_self.label_map()[k], id));
                                assert forall|kk: (TypeKey, Seq<char>)| self.label_map().dom().contains(kk) <==> m2.dom().contains(kk) by {
                                    if self.label_map().dom().contains(kk) {
                                        let j = choose|j: int| 0 <= j < n.len() && #[trigger] Self::key_of(n[j]) == kk;
                                        assert(Self::key_of(o[j]) == kk);
                                    }
                                    if old_self.label_map().dom().contains(kk) {
                                        let j = choose|j: int| 0 <= j < o.len() && #[trigger] Self::key_of(o[j]) == kk;
                                        assert(Self::key_of(n[j]) == kk);
                                    }
                                }
                                assert forall|kk: (TypeKey, Seq<char>)| #[trigger] self.label_map().dom().contains(kk) implies self.label_map()[kk] == m2[kk] by {
                                    let j = Self::index_of(n, kk);
                                    assert(0 <= j < n.len() && Self::key_of(n[j]) == kk);
                                    Self::lemma_index_of(n, j);
                                    Self::lemma_index_of(o, j);
                                    assert(Self::key_of(o[j]) == kk);
                                }
                                assert(self.label_map() =~= m2);
                            }
                        } else {
                            proof {
                                let n = self.by_label@;
                                assert(n == o.remove(i as int));
                                assert forall|a: int, b: int| 0 <= a < n.len() && 0 <= b < n.len() && a != b
                                    implies Self::key_of(#[trigger] n[a]) != Self::key_of(#[trigger] n[b]) by {
                                    let aa = if a < i { a } else { a + 1 };
                                    let bb = if b < i { b } else { b + 1 };
                                    assert(n[a] == o[aa] && n[b] == o[bb]);
                                }
                                assert forall|j: int| 0 <= j < n.len() implies (#[trigger] n[j]).2@.len() > 0 by {
                                    let jj = if j < i { j } else { j + 1 };
                                    assert(n[j] == o[jj]);
                                }
                                let m2 = old_self.label_map().remove(k);
                                assert forall|kk: (TypeKey, Seq<char>)| self.label_map().dom().contains(kk) <==> m2.dom().contains(kk) by {
                                    if self.label_map().dom().contains(kk) {
                                        let j = choose|j: int| 0 <= j < n.len() && #[trigger] Self::key_of(n[j]) == kk;
                                        let jj = if j < i { j } else { j + 1 };
                                        assert(n[j] == o[jj]);
                                        assert(Self::key_of(o[jj]) == kk);
                                        assert(jj != i);
                                    }
                                    if m2.dom().contains(kk) {
                                        let j = choose|j: int| 0 <= j < o.len() && #[trigger] Self::key_of(o[j]) == kk;
                                        assert(j != i);
                                        let jj = if j < i { j } else { j - 1 };
                                        assert(n[jj] == o[j]);
                                        assert(Self::key_of(n[jj]) == kk);
                                    }
                                }
                                assert forall|kk: (TypeKey, Seq<char>)| #[trigger] self.label_map().dom().contains(kk) implies self.label_map()[kk] == m2[kk] by {
                                    let j = Self::index_of(n, kk);
                                    assert(0 <= j < n.len() && Self::key_of(n[j]) == kk);
                                    let jj = if j < i { j } else { j + 1 };
                                    assert(n[j] == o[jj]);
                                    Self::lemma_index_of(o, jj);
                                }
                                assert(self.label_map() =~= m2);
                            }
                        }
                    },
                    None => {
                        proof {
                            assert(self.label_map() == old_self.label_map());
                        }
                    },
                }
            },
            None => {},
        }
    }
}

} // verus!

verus! {

/// For each (value type, label) the entities carrying that label, in the
/// order they were labelled, and for each entity its last label.
pub struct LabelIndex {
    table: LabelTable,
}

impl LabelIndex {
    #[verifier::type_invariant]
    spec fn inv(&self) -> bool {
        self.table.wf()
    }

    /// The entities under each (value type, label).
    pub closed spec fn label_map(&self) -> Map<(TypeKey, Seq<char>), Seq<EntityId>> {
        self.table.label_map()
    }

    /// The (value type, label) last given to each entity.
    pub closed spec fn owner_map(&self) -> Map<u64, (TypeKey, Seq<char>)> {
        self.table.owner_map()
    }

    /// An empty index.
    pub fn new() -> (l: Self)
        ensures
            l.label_map() == Map::<(TypeKey, Seq<char>), Seq<EntityId>>::empty(),
            l.owner_map() == Map::<u64, (TypeKey, Seq<char>)>::empty(),
    {
        LabelIndex { table: LabelTable::new() }
    }

    /// Labels entity `id`, whose value has type `type_id`, with `label`. The
    /// entity is appended to the list of that label and `label` becomes its
    /// label for later removal.
    pub fn insert(&mut self, type_id: TypeKey, label: &str, id: EntityId)
        ensures
            final(self).label_map() == old(self).label_map().insert(
                (type_id, label@),
                (if old(self).label_map().contains_key((type_id, label@)) {
                    old(self).label_map()[(type_id, label@)]
                } else {
                    Seq::<EntityId>::empty()
                }).push(id),
            ),
            final(self).owner_map() == old(self).owner_map().insert(id.0, (type_id, label@)),
    {
        proof {
            use_type_invariant(&*self);
        }
        let mut tmp = LabelIndex::new();
        std::mem::swap(&mut tmp, self);
        let LabelIndex { mut table } = tmp;
        table.insert(type_id, label, id);
        *self = LabelIndex { table };
    }

    /// The entities labelled `label` whose value has type `type_id`, in the
    /// order they were labelled.
    pub fn get(&self, type_id: TypeKey, label: &str) -> (ids: &[EntityId])
        ensures
            ids@ == (if self.label_map().contains_key((type_id, label@)) {
                self.label_map()[(type_id, label@)]
            } else {
                Seq::<EntityId>::empty()
            }),
    {
        proof {
            use_type_invariant(self);
        }
        self.table.get(type_id, label)
    }

    /// Takes the label off entity `id`: forgets its label and drops it from
    /// the list of that label, dropping the list when it becomes empty.
    pub fn remove(&mut self, id: EntityId)
        ensures
            final(self).owner_map() == old(self).owner_map().remove(id.0),
            final(self).label_map() == (if old(self).owner_map().contains_key(id.0)
                && old(self).label_map().contains_key(old(self).owner_map()[id.0]) {
                let k = old(self).owner_map()[id.0];
                let rest = without(old(self).label_map()[k], id);
                if rest.len() == 0 {
                    old(self).label_map().remove(k)
                } else {
                    old(self).label_map().insert(k, rest)
                }
            } else {
                old(self).label_map()
            }),
    {
        proof {
            use_type_invariant(&*self);
        }
        let mut tmp = LabelIndex::new();
        std::mem::swap(&mut tmp, self);
        let LabelIndex { mut table } = tmp;
        table.remove(id);
        *self = LabelIndex { table };
    }
}

} // verus!
