//! The world: entities with their components, stored in archetypes, plus
//! one resource per resource type.
use vstd::prelude::*;
use std::collections::HashMap;
use crate::archetype::Archetype;
use crate::bundle::{lemma_raw_map_insert, lemma_raw_map_remove, raw_binary_search, raw_keys, raw_map, Bundle};
use crate::error::ECSError;
use crate::maps::get_mut;
use crate::search::{
    binary_search, copy_keys, distinct_keys, is_insertion_point, key_index, keys_equal, lemma_key_index,
    lemma_sorted_distinct, strictly_sorted,
};
use crate::types::{
    ArchetypeId, ArchetypeRecord, ComponentInfo, EntityId, EntityInfo, RawComponent, TypeKey,
};

verus! {

broadcast use vstd::std_specs::hash::group_hash_axioms;

/// `n` is the archetype index `o` after listing `a` under `ids`: an earlier
/// listing under `ids` is replaced, else one is added at the end.
spec fn index_inserted(o: Seq<(Vec<TypeKey>, ArchetypeId)>, n: Seq<(Vec<TypeKey>, ArchetypeId)>, ids: Seq<TypeKey>, a: ArchetypeId) -> bool {
    &&& (exists|i: int| 0 <= i < o.len() && (#[trigger] o[i]).0@ == ids) ==> {
        &&& n.len() == o.len()
        &&& forall|j: int| 0 <= j < o.len() ==> (#[trigger] n[j]).0@ == o[j].0@
            && (o[j].0@ == ids ==> n[j].1 == a)
            && (o[j].0@ != ids ==> n[j].1 == o[j].1)
    }
    &&& (forall|i: int| 0 <= i < o.len() ==> (#[trigger] o[i]).0@ != ids) ==> {
        &&& n.len() == o.len() + 1
        &&& forall|j: int| 0 <= j < o.len() ==> #[trigger] n[j] == o[j]
        &&& n[o.len() as int].0@ == ids
        &&& n[o.len() as int].1 == a
    }
}

/// `n` is the component index `o` after recording archetype `a` with types `ids`.
spec fn registered(o: Map<TypeKey, HashMap<u32, ArchetypeRecord>>, n: Map<TypeKey, HashMap<u32, ArchetypeRecord>>, ids: Seq<TypeKey>, a: ArchetypeId) -> bool {
    &&& forall|t: TypeKey, x: u32| n.contains_key(t) && #[trigger] n[t]@.contains_key(x) ==> 
        (x == a.0 && ids.contains(t) && n[t]@[x].column == key_index(ids, t))
        || (x != a.0 && o.contains_key(t) && o[t]@.contains_key(x) && n[t]@[x] == o[t]@[x])
    &&& forall|t: TypeKey, x: u32| o.contains_key(t) && #[trigger] o[t]@.contains_key(x) ==> 
        n.contains_key(t) && n[t]@.contains_key(x)
    &&& forall|t: TypeKey| #[trigger] ids.contains(t) ==> n.contains_key(t) && n[t]@.contains_key(a.0)
}

/// The archetype listed under the type set `ids`, if any.
fn index_get(index: &Vec<(Vec<TypeKey>, ArchetypeId)>, ids: &Vec<TypeKey>) -> (r: Option<ArchetypeId>)
    ensures
        match r {
            Some(a) => exists|i: int| 0 <= i < index@.len() && (#[trigger] index@[i]).0@ == ids@ && index@[i].1 == a,
            None => forall|i: int| 0 <= i < index@.len() ==> (#[trigger] index@[i]).0@ != ids@,
        },
{
    let mut i: usize = 0;
    while i < index.len()
        invariant
            i <= index@.len(),
            forall|j: int| 0 <= j < i ==> (#[trigger] index@[j]).0@ != ids@,
        decreases index@.len() - i,
    {
        if keys_equal(&index[i].0, ids) {
            assert(index@[i as int].0@ == ids@);
            return Some(index[i].1);
        }
        i = i + 1;
    }
    None
}

/// Lists archetype `a` under the type set `ids`, replacing an earlier listing.
fn index_insert(index: &mut Vec<(Vec<TypeKey>, ArchetypeId)>, ids: Vec<TypeKey>, a: ArchetypeId)
    requires
        forall|i: int, j: int| 0 <= i < old(index)@.len() && 0 <= j < old(index)@.len() && i != j
            ==> (#[trigger] old(index)@[i]).0@ != (#[trigger] old(index)@[j]).0@,
    ensures
        index_inserted(old(index)@, final(index)@, ids@, a),
{
    let mut i: usize = 0;
    let ghost o = index@;
    while i < index.len()
        invariant
            index@ == o,
            o == old(index)@,
            forall|a: int, b: int| 0 <= a < o.len() && 0 <= b < o.len() && a != b
                ==> (#[trigger] o[a]).0@ != (#[trigger] o[b]).0@,
            i <= index@.len(),
            forall|j: int| 0 <= j < i ==> (#[trigger] index@[j]).0@ != ids@,
        decreases index@.len() - i,
    {
        if keys_equal(&index[i].0, &ids) {
            let entry = index.remove(i);
            index.insert(i, (entry.0, a));
            proof {
                assert(o[i as int].0@ == ids@);
                assert forall|j: int| 0 <= j < o.len() && (#[trigger] o[j]).0@ == ids@ implies j == i by {
                    if j != i {
                        assert(o[j].0@ != o[i as int].0@);
                    }
                }
                assert forall|j: int| 0 <= j < o.len() implies (#[trigger] index@[j]).0@ == o[j].0@
                    && (o[j].0@ == ids@ ==> index@[j].1 == a)
                    && (o[j].0@ != ids@ ==> index@[j].1 == o[j].1) by {
                    if j != i {
                        assert(o[j].0@ != o[i as int].0@);
                    }
                }
            }
            return;
        }
        i = i + 1;
    }
    index.push((ids, a));
}

/// Records in the component index that archetype `a`, whose types are
/// `ids`, holds each of them, at its position in `ids`.
fn register_archetype(ci: &mut HashMap<TypeKey, HashMap<u32, ArchetypeRecord>>, ids: &Vec<TypeKey>, a: ArchetypeId)
    requires
        strictly_sorted(ids@),
        ids@.len() <= u32::MAX,
        forall|t: TypeKey| #[trigger] old(ci)@.contains_key(t) ==> !old(ci)@[t]@.contains_key(a.0),
    ensures
        registered(old(ci)@, final(ci)@, ids@, a),
{
    let ghost o = ci@;
    proof {
        lemma_sorted_distinct(ids@);
    }
    let mut c: usize = 0;
    while c < ids.len()
        invariant
            o == old(ci)@,
            strictly_sorted(ids@),
            distinct_keys(ids@),
            ids@.len() <= u32::MAX,
            c <= ids@.len(),
            forall|t: TypeKey| #[trigger] o.contains_key(t) ==> !o[t]@.contains_key(a.0),
            forall|t: TypeKey, x: u32| ci@.contains_key(t) && #[trigger] ci@[t]@.contains_key(x) ==> 
                (x == a.0 && ids@.subrange(0, c as int).contains(t) && ci@[t]@[x].column == key_index(ids@, t))
                || (x != a.0 && o.contains_key(t) && o[t]@.contains_key(x) && ci@[t]@[x] == o[t]@[x]),
            forall|t: TypeKey, x: u32| o.contains_key(t) && #[trigger] o[t]@.contains_key(x) ==> 
                ci@.contains_key(t) && ci@[t]@.contains_key(x),
            forall|i: int| 0 <= i < c ==> ci@.contains_key(#[trigger] ids@[i]) && ci@[ids@[i]]@.contains_key(a.0),
        decreases ids@.len() - c,
    {
        let t = ids[c];
        let ghost before = ci@;
        proof {
            lemma_key_index(ids@, c as int);
        }
        let inner = ci.entry(t).or_insert(HashMap::new());
        inner.insert(a.0, ArchetypeRecord { column: c as u32 });
        proof {
            let pre = ids@.subrange(0, c as int);
            let pre1 = ids@.subrange(0, c + 1);
            assert forall|u: TypeKey| pre.contains(u) implies pre1.contains(u) by {
                let w = choose|w: int| 0 <= w < pre.len() && pre[w] == u;
                assert(pre1[w] == u);
            }
            assert(pre1[c as int] == t);
            assert forall|u: TypeKey, x: u32| ci@.contains_key(u) && #[trigger] ci@[u]@.contains_key(x) implies
                (x == a.0 && pre1.contains(u) && ci@[u]@[x].column == key_index(ids@, u))
                || (x != a.0 && o.contains_key(u) && o[u]@.contains_key(x) && ci@[u]@[x] == o[u]@[x]) by {
                if u == t {
                    if x == a.0 {
                    } else {
                        assert(before.contains_key(u) && before[u]@.contains_key(x));
                    }
                } else {
                    assert(before.contains_key(u) && before[u]@.contains_key(x));
                }
            }
            assert forall|i: int| 0 <= i < c + 1 implies ci@.contains_key(#[trigger] ids@[i]) && ci@[ids@[i]]@.contains_key(a.0) by {
                if i < c {
                    assert(before.contains_key(ids@[i]) && before[ids@[i]]@.contains_key(a.0));
                }
            }
            assert forall|u: TypeKey, x: u32| o.contains_key(u) && #[trigger] o[u]@.contains_key(x) implies
                ci@.contains_key(u) && ci@[u]@.contains_key(x) by {
                assert(before.contains_key(u) && before[u]@.contains_key(x));
            }
        }
        c = c + 1;
    }
    proof {
        assert(ids@.subrange(0, ids@.len() as int) =~= ids@);
        assert forall|t: TypeKey| #[trigger] ids@.contains(t) implies ci@.contains_key(t) && ci@[t]@.contains_key(a.0) by {
            let w = choose|w: int| 0 <= w < ids@.len() && ids@[w] == t;
            assert(ci@.contains_key(ids@[w]));
        }
    }
}

/// Entities and their components, and resources.
///
/// The entities are kept in archetypes: tables of all entities that have
/// exactly the same set of component types.
pub struct World<V> {
    /// Where each entity's components are stored.
    entity_index: HashMap<u32, EntityInfo>,
    resources: HashMap<TypeKey, V>,
    archetypes: HashMap<u32, Archetype<V>>,
    /// The archetype to use for a given (sorted) set of component types.
    archetype_index: Vec<(Vec<TypeKey>, ArchetypeId)>,
    /// For each component type, the archetypes that have it and its column there.
    component_index: HashMap<TypeKey, HashMap<u32, ArchetypeRecord>>,
    current_arch_id: ArchetypeId,
    current_entity_id: EntityId,
}

impl<V> View for World<V> {
    type V = Map<EntityId, Map<TypeKey, V>>;

    /// Each live entity with its components by type.
    closed spec fn view(&self) -> Map<EntityId, Map<TypeKey, V>> {
        Map::new(
            |e: EntityId| self.entity_index@.contains_key(e.0),
            |e: EntityId| self.components_of(e.0),
        )
    }
}

impl<V> World<V> {
    /// The components of entity `e` (meaningful when `e` is live).
    closed spec fn components_of(&self, e: u32) -> Map<TypeKey, V> {
        self.archetypes@[self.entity_index@[e].archetype_id.0].row_map(self.entity_index@[e].row as int)
    }

    /// The resources, by type.
    pub closed spec fn resource_map(&self) -> Map<TypeKey, V> {
        self.resources@
    }

    /// The identifier the next spawned entity receives.
    pub closed spec fn next_entity_id(&self) -> u32 {
        self.current_entity_id.0
    }

    /// The identifier the next created archetype receives.
    pub closed spec fn next_archetype_id(&self) -> u32 {
        self.current_arch_id.0
    }

    /// Where entity `e` is stored (meaningful when `e` is live).
    pub closed spec fn location(&self, e: EntityId) -> EntityInfo {
        self.entity_index@[e.0]
    }

    /// Whether archetype `a` exists.
    pub closed spec fn has_archetype(&self, a: ArchetypeId) -> bool {
        self.archetypes@.contains_key(a.0)
    }

    /// The component types of archetype `a`, in increasing order.
    pub closed spec fn archetype_types(&self, a: ArchetypeId) -> Seq<TypeKey> {
        self.archetypes@[a.0].ids()
    }

    /// The archetype cached in archetype `a` as the one reached by adding
    /// type `t`, if any.
    pub closed spec fn add_neighbour(&self, a: ArchetypeId, t: TypeKey) -> Option<ArchetypeId> {
        if self.archetypes@.contains_key(a.0) && self.archetypes@[a.0].add_archetypes@.contains_key(t) {
            Some(self.archetypes@[a.0].add_archetypes@[t])
        } else {
            None
        }
    }

    /// The archetype cached in archetype `a` as the one reached by removing
    /// type `t`, if any.
    pub closed spec fn remove_neighbour(&self, a: ArchetypeId, t: TypeKey) -> Option<ArchetypeId> {
        if self.archetypes@.contains_key(a.0) && self.archetypes@[a.0].remove_archetypes@.contains_key(t) {
            Some(self.archetypes@[a.0].remove_archetypes@[t])
        } else {
            None
        }
    }

    /// Every archetype can still make one more row.
    pub closed spec fn rows_below_limit(&self) -> bool {
        forall|a: u32| #[trigger] self.archetypes@.contains_key(a) ==> self.archetypes@[a].count() < u32::MAX
    }

    /// The 32-bit counters and tables have room for `k` more steps: `k` more
    /// entities, archetypes, rows in each archetype, and types in each
    /// archetype beyond one more.
    pub closed spec fn has_room(&self, k: nat) -> bool {
        &&& self.current_entity_id.0 + k < u32::MAX
        &&& self.current_arch_id.0 + k < u32::MAX
        &&& forall|a: u32| #[trigger] self.archetypes@.contains_key(a) ==> self.archetypes@[a].count() + k < u32::MAX
                && self.archetypes@[a].ids().len() + 1 + k < u32::MAX
    }

    /// Every live entity's identifier is below the next one to be handed
    /// out; as that counter only grows, an identifier is never handed out twice.
    pub proof fn lemma_live_ids_below_next(&self)
        requires
            self.wf(),
        ensures
            forall|e: EntityId| #[trigger] self@.contains_key(e) ==> e.0 < self.next_entity_id(),
    {
    }

    /// Room for `k` steps is room for fewer.
    pub proof fn lemma_has_room_shrinks(&self, j: nat, k: nat)
        requires
            j <= k,
            self.has_room(k),
        ensures
            self.has_room(j),
    {
    }

    /// The column at which the component index says archetype `a` stores
    /// type `t`, if it records `t` for `a`.
    pub closed spec fn column_record(&self, t: TypeKey, a: ArchetypeId) -> Option<u32> {
        if self.component_index@.contains_key(t) && self.component_index@[t]@.contains_key(a.0) {
            Some(self.component_index@[t]@[a.0].column)
        } else {
            None
        }
    }

    /// The component index records each type of each archetype, at the
    /// position of the type among the archetype's sorted types, and nothing
    /// else.
    pub proof fn lemma_column_records(&self)
        requires
            self.wf(),
        ensures
            forall|a: ArchetypeId, i: int| #![trigger self.archetype_types(a)[i]]
                self.has_archetype(a) && 0 <= i < self.archetype_types(a).len()
                ==> self.column_record(self.archetype_types(a)[i], a) == Some(i as u32),
            forall|t: TypeKey, a: ArchetypeId| #[trigger] self.column_record(t, a) is Some
                ==> self.has_archetype(a) && self.archetype_types(a).contains(t),
    {
        assert forall|a: ArchetypeId, i: int| #![trigger self.archetype_types(a)[i]]
            self.has_archetype(a) && 0 <= i < self.archetype_types(a).len()
            implies self.column_record(self.archetype_types(a)[i], a) == Some(i as u32) by {
            let ids = self.archetypes@[a.0].ids();
            let t = ids[i];
            assert(ids.contains(t));
            lemma_sorted_distinct(ids);
            lemma_key_index(ids, i);
        }
    }

    /// A step that adds at most `d` entities and archetypes, at most `d` rows
    /// to each archetype, and only archetypes of at most `d` rows and few
    /// enough types, uses up at most `d` units of room.
    proof fn lemma_room(w1: Self, w2: Self, k: nat, d: nat)
        requires
            w1.has_room(k + d),
            w2.current_entity_id.0 <= w1.current_entity_id.0 + d,
            w2.current_arch_id.0 <= w1.current_arch_id.0 + d,
            forall|a: u32| #[trigger] w2.archetypes@.contains_key(a) ==> (w1.archetypes@.contains_key(a)
                && w2.archetypes@[a].count() <= w1.archetypes@[a].count() + d
                && w2.archetypes@[a].ids().len() == w1.archetypes@[a].ids().len())
                || (w2.archetypes@[a].count() <= d && w2.archetypes@[a].ids().len() + 1 + k < u32::MAX),
        ensures
            w2.has_room(k),
    {
        assert forall|a: u32| #[trigger] w2.archetypes@.contains_key(a) implies w2.archetypes@[a].count() + k < u32::MAX
            && w2.archetypes@[a].ids().len() + 1 + k < u32::MAX by {
            if w1.archetypes@.contains_key(a) && w2.archetypes@[a].count() <= w1.archetypes@[a].count() + d
                && w2.archetypes@[a].ids().len() == w1.archetypes@[a].ids().len() {
                assert(w1.archetypes@[a].count() + k + d < u32::MAX);
            }
        }
    }

    /// The tables agree with one another.
    pub closed spec fn wf(&self) -> bool {
        self.tables_wf() && self.entities_wf()
    }

    /// Archetypes, the archetype index, the component index and the
    /// cached neighbours agree, and every cached neighbour caches its way back.
    closed spec fn tables_wf(&self) -> bool {
        self.tables_core() && Self::back_edges(self.archetypes@)
    }

    /// The archetype reached from `a` by adding `t` reaches `a` back by
    /// removing `t`, and the other way round.
    spec fn back_edges(archs: Map<u32, Archetype<V>>) -> bool {
        &&& forall|a: u32, t: TypeKey| archs.contains_key(a) && #[trigger] archs[a].add_archetypes@.contains_key(t)
                ==> archs[archs[a].add_archetypes@[t].0].remove_archetypes@.contains_key(t)
                && archs[archs[a].add_archetypes@[t].0].remove_archetypes@[t].0 == a
        &&& forall|a: u32, t: TypeKey| archs.contains_key(a) && #[trigger] archs[a].remove_archetypes@.contains_key(t)
                ==> archs[archs[a].remove_archetypes@[t].0].add_archetypes@.contains_key(t)
                && archs[archs[a].remove_archetypes@[t].0].add_archetypes@[t].0 == a
    }

    /// Archetypes, the archetype index, the component index and the
    /// cached neighbours' types agree.
    closed spec fn tables_core(&self) -> bool {
        &&& forall|a: u32| #[trigger] self.archetypes@.contains_key(a) ==> self.archetypes@[a].wf()
                && self.archetypes@[a].id.0 == a && a < self.current_arch_id.0
        &&& forall|i: int| 0 <= i < self.archetype_index@.len() ==> self.archetypes@.contains_key((#[trigger] self.archetype_index@[i]).1.0)
                && self.archetypes@[self.archetype_index@[i].1.0].ids() == self.archetype_index@[i].0@
        &&& forall|i: int, j: int| 0 <= i < self.archetype_index@.len() && 0 <= j < self.archetype_index@.len() && i != j
                ==> (#[trigger] self.archetype_index@[i]).0@ != (#[trigger] self.archetype_index@[j]).0@
        &&& forall|t: TypeKey, a: u32| self.component_index@.contains_key(t) && #[trigger] self.component_index@[t]@.contains_key(a)
                ==> self.archetypes@.contains_key(a) && self.archetypes@[a].ids().contains(t)
        &&& forall|t: TypeKey, a: u32| self.archetypes@.contains_key(a) && #[trigger] self.archetypes@[a].ids().contains(t)
                ==> self.component_index@.contains_key(t) && self.component_index@[t]@.contains_key(a)
        &&& forall|t: TypeKey, a: u32| self.component_index@.contains_key(t) && #[trigger] self.component_index@[t]@.contains_key(a)
                ==> self.component_index@[t]@[a].column == key_index(self.archetypes@[a].ids(), t)
        &&& forall|a: u32, t: TypeKey| self.archetypes@.contains_key(a) && #[trigger] self.archetypes@[a].add_archetypes@.contains_key(t)
                ==> Self::add_edge(self.archetypes@, a, t, self.archetypes@[a].add_archetypes@[t].0)
        &&& forall|a: u32, t: TypeKey| self.archetypes@.contains_key(a) && #[trigger] self.archetypes@[a].remove_archetypes@.contains_key(t)
                ==> Self::remove_edge(self.archetypes@, a, t, self.archetypes@[a].remove_archetypes@[t].0)
    }

    /// Every entity is stored at its own live row of an existing archetype.
    closed spec fn entities_wf(&self) -> bool {
        &&& forall|e: u32| #[trigger] self.entity_index@.contains_key(e) ==> e < self.current_entity_id.0
                && self.archetypes@.contains_key(self.entity_index@[e].archetype_id.0)
                && self.archetypes@[self.entity_index@[e].archetype_id.0].is_live(self.entity_index@[e].row as int)
        &&& forall|e1: u32, e2: u32| #[trigger] self.entity_index@.contains_key(e1) && #[trigger] self.entity_index@.contains_key(e2)
                && e1 != e2 ==> self.entity_index@[e1] != self.entity_index@[e2]
    }

    /// Two archetypes with the same identity, types and cached neighbours.
    spec fn same_shape(x: Archetype<V>, y: Archetype<V>) -> bool {
        &&& x.id == y.id
        &&& x.ids() == y.ids()
        &&& x.add_archetypes@ == y.add_archetypes@
        &&& x.remove_archetypes@ == y.remove_archetypes@
    }

    /// Replacing archetypes by consistent ones of the same shape keeps the tables consistent.
    proof fn lemma_tables_frame(w1: Self, w2: Self)
        requires
            w1.tables_wf(),
            w2.archetypes@.dom() == w1.archetypes@.dom(),
            forall|a: u32| #[trigger] w1.archetypes@.contains_key(a) ==> w2.archetypes@[a].wf()
                && Self::same_shape(w1.archetypes@[a], w2.archetypes@[a]),
            w2.archetype_index@ == w1.archetype_index@,
            w2.component_index@ == w1.component_index@,
            w2.current_arch_id == w1.current_arch_id,
        ensures
            w2.tables_wf(),
    {
        assert forall|a: u32, t: TypeKey| w2.archetypes@.contains_key(a) && #[trigger] w2.archetypes@[a].add_archetypes@.contains_key(t)
            implies Self::add_edge(w2.archetypes@, a, t, w2.archetypes@[a].add_archetypes@[t].0) by {
            assert(w1.archetypes@[a].add_archetypes@.contains_key(t));
            let b = w1.archetypes@[a].add_archetypes@[t].0;
            assert(Self::add_edge(w1.archetypes@, a, t, b));
            let p = choose|p: int| #[trigger] is_insertion_point(w1.archetypes@[a].ids(), t, p)
                && w1.archetypes@[b].ids() == w1.archetypes@[a].ids().insert(p, t);
            assert(is_insertion_point(w2.archetypes@[a].ids(), t, p));
        }
        assert forall|a: u32, t: TypeKey| w2.archetypes@.contains_key(a) && #[trigger] w2.archetypes@[a].remove_archetypes@.contains_key(t)
            implies Self::remove_edge(w2.archetypes@, a, t, w2.archetypes@[a].remove_archetypes@[t].0) by {
            assert(w1.archetypes@[a].remove_archetypes@.contains_key(t));
            let b = w1.archetypes@[a].remove_archetypes@[t].0;
            assert(Self::remove_edge(w1.archetypes@, a, t, b));
            let p = choose|p: int| 0 <= p < w1.archetypes@[a].ids().len() && #[trigger] w1.archetypes@[a].ids()[p] == t
                && w1.archetypes@[b].ids() == w1.archetypes@[a].ids().remove(p);
            assert(w2.archetypes@[a].ids()[p] == t);
        }
        assert forall|t: TypeKey, a: u32| w2.archetypes@.contains_key(a) && #[trigger] w2.archetypes@[a].ids().contains(t)
            implies w2.component_index@.contains_key(t) && w2.component_index@[t]@.contains_key(a) by {
            assert(w1.archetypes@[a].ids().contains(t));
        }
        assert forall|i: int| 0 <= i < w2.archetype_index@.len() implies w2.archetypes@.contains_key((#[trigger] w2.archetype_index@[i]).1.0)
            && w2.archetypes@[w2.archetype_index@[i].1.0].ids() == w2.archetype_index@[i].0@ by {
            assert(w1.archetypes@.contains_key(w1.archetype_index@[i].1.0));
        }
    }

    /// Archetype `b` has the types of archetype `a` plus `t`, which `a` lacks.
    pub open spec fn add_edge(archs: Map<u32, Archetype<V>>, a: u32, t: TypeKey, b: u32) -> bool {
        &&& archs.contains_key(b)
        &&& !archs[a].ids().contains(t)
        &&& exists|p: int| #[trigger] is_insertion_point(archs[a].ids(), t, p) && archs[b].ids() == archs[a].ids().insert(p, t)
    }

    /// Archetype `b` has the types of archetype `a` except `t`, which `a` has.
    pub open spec fn remove_edge(archs: Map<u32, Archetype<V>>, a: u32, t: TypeKey, b: u32) -> bool {
        &&& archs.contains_key(b)
        &&& exists|p: int| 0 <= p < archs[a].ids().len() && #[trigger] archs[a].ids()[p] == t && archs[b].ids() == archs[a].ids().remove(p)
    }

    /// The resources play no part in the entity tables.
    proof fn lemma_resource_frame(w1: Self, w2: Self)
        requires
            w1.entity_index == w2.entity_index,
            w1.archetypes == w2.archetypes,
            w1.archetype_index == w2.archetype_index,
            w1.component_index == w2.component_index,
            w1.current_arch_id == w2.current_arch_id,
            w1.current_entity_id == w2.current_entity_id,
        ensures
            w1.wf() == w2.wf(),
            forall|k: nat| #[trigger] w1.has_room(k) == w2.has_room(k),
            w1@ == w2@,
    {
        assert(w1@ =~= w2@);
    }

    /// Adding a new consistent archetype under the next identifier, listed in
    /// the archetype index and recorded in the component index, whose own
    /// cached neighbours are right, keeps the tables consistent.
    proof fn lemma_add_archetype(w1: Self, w2: Self, b: Archetype<V>)
        requires
            w1.tables_core(),
            b.wf(),
            b.id.0 == w1.current_arch_id.0,
            w2.current_arch_id.0 == w1.current_arch_id.0 + 1,
            w2.archetypes@ == w1.archetypes@.insert(b.id.0, b),
            forall|t: TypeKey| #[trigger] b.add_archetypes@.contains_key(t) ==> Self::add_edge(
                w2.archetypes@,
                b.id.0,
                t,
                b.add_archetypes@[t].0,
            ),
            forall|t: TypeKey| #[trigger] b.remove_archetypes@.contains_key(t) ==> Self::remove_edge(
                w2.archetypes@,
                b.id.0,
                t,
                b.remove_archetypes@[t].0,
            ),
            index_inserted(w1.archetype_index@, w2.archetype_index@, b.ids(), b.id),
            registered(w1.component_index@, w2.component_index@, b.ids(), b.id),
        ensures
            w2.tables_core(),
            !w1.archetypes@.contains_key(b.id.0),
    {
        let nb = b.id.0;
        assert(!w1.archetypes@.contains_key(nb));
        lemma_sorted_distinct(b.ids());
        assert forall|a: u32| #[trigger] w2.archetypes@.contains_key(a) implies w2.archetypes@[a].wf()
            && w2.archetypes@[a].id.0 == a && a < w2.current_arch_id.0 by {
            if a != nb {
                assert(w1.archetypes@.contains_key(a));
            }
        }
        assert forall|i: int| 0 <= i < w2.archetype_index@.len() implies w2.archetypes@.contains_key((#[trigger] w2.archetype_index@[i]).1.0)
            && w2.archetypes@[w2.archetype_index@[i].1.0].ids() == w2.archetype_index@[i].0@ by {
            if exists|k: int| 0 <= k < w1.archetype_index@.len() && (#[trigger] w1.archetype_index@[k]).0@ == b.ids() {
                assert(w1.archetype_index@[i].0@ == w2.archetype_index@[i].0@);
                if w1.archetype_index@[i].0@ != b.ids() {
                    assert(w1.archetypes@.contains_key(w1.archetype_index@[i].1.0));
                }
            } else {
                if i < w1.archetype_index@.len() {
                    assert(w2.archetype_index@[i] == w1.archetype_index@[i]);
                    assert(w1.archetypes@.contains_key(w1.archetype_index@[i].1.0));
                }
            }
        }
        assert forall|i: int, j: int| 0 <= i < w2.archetype_index@.len() && 0 <= j < w2.archetype_index@.len() && i != j
            implies (#[trigger] w2.archetype_index@[i]).0@ != (#[trigger] w2.archetype_index@[j]).0@ by {
            if exists|k: int| 0 <= k < w1.archetype_index@.len() && (#[trigger] w1.archetype_index@[k]).0@ == b.ids() {
                assert(w1.archetype_index@[i].0@ == w2.archetype_index@[i].0@);
                assert(w1.archetype_index@[j].0@ == w2.archetype_index@[j].0@);
                assert(w1.archetype_index@[i].0@ != w1.archetype_index@[j].0@);
            } else {
                if i < w1.archetype_index@.len() && j < w1.archetype_index@.len() {
                    assert(w2.archetype_index@[i] == w1.archetype_index@[i]);
                    assert(w2.archetype_index@[j] == w1.archetype_index@[j]);
                    assert(w1.archetype_index@[i].0@ != w1.archetype_index@[j].0@);
                } else if i < w1.archetype_index@.len() {
                    assert(w2.archetype_index@[i] == w1.archetype_index@[i]);
                    assert(w1.archetype_index@[i].0@ != b.ids());
                } else {
                    assert(w2.archetype_index@[j] == w1.archetype_index@[j]);
                    assert(w1.archetype_index@[j].0@ != b.ids());
                }
            }
        }
        assert forall|t: TypeKey, a: u32| w2.component_index@.contains_key(t) && #[trigger] w2.component_index@[t]@.contains_key(a)
            implies w2.archetypes@.contains_key(a) && w2.archetypes@[a].ids().contains(t)
                && w2.component_index@[t]@[a].column == key_index(w2.archetypes@[a].ids(), t) by {
            if a != nb {
                assert(w1.component_index@.contains_key(t) && w1.component_index@[t]@.contains_key(a));
            }
        }
        assert forall|t: TypeKey, a: u32| w2.archetypes@.contains_key(a) && #[trigger] w2.archetypes@[a].ids().contains(t)
            implies w2.component_index@.contains_key(t) && w2.component_index@[t]@.contains_key(a) by {
            if a != nb {
                assert(w1.archetypes@[a].ids().contains(t));
                assert(w1.component_index@.contains_key(t) && w1.component_index@[t]@.contains_key(a));
            }
        }
        assert forall|a: u32, t: TypeKey| w2.archetypes@.contains_key(a) && #[trigger] w2.archetypes@[a].add_archetypes@.contains_key(t)
            implies Self::add_edge(w2.archetypes@, a, t, w2.archetypes@[a].add_archetypes@[t].0) by {
            if a != nb {
                let c = w1.archetypes@[a].add_archetypes@[t].0;
                assert(Self::add_edge(w1.archetypes@, a, t, c));
                let p = choose|p: int| #[trigger] is_insertion_point(w1.archetypes@[a].ids(), t, p)
                    && w1.archetypes@[c].ids() == w1.archetypes@[a].ids().insert(p, t);
                assert(c != nb);
                assert(is_insertion_point(w2.archetypes@[a].ids(), t, p));
            }
        }
        assert forall|a: u32, t: TypeKey| w2.archetypes@.contains_key(a) && #[trigger] w2.archetypes@[a].remove_archetypes@.contains_key(t)
            implies Self::remove_edge(w2.archetypes@, a, t, w2.archetypes@[a].remove_archetypes@[t].0) by {
            if a != nb {
                let c = w1.archetypes@[a].remove_archetypes@[t].0;
                assert(Self::remove_edge(w1.archetypes@, a, t, c));
                let p = choose|p: int| 0 <= p < w1.archetypes@[a].ids().len() && #[trigger] w1.archetypes@[a].ids()[p] == t
                    && w1.archetypes@[c].ids() == w1.archetypes@[a].ids().remove(p);
                assert(c != nb);
                assert(w2.archetypes@[a].ids()[p] == t);
            }
        }
    }

    /// Two archetypes holding the same rows: same types, columns, freed rows and count.
    spec fn same_rows(x: Archetype<V>, y: Archetype<V>) -> bool {
        &&& x.ids() == y.ids()
        &&& x.cols() == y.cols()
        &&& x.free() == y.free()
        &&& x.count() == y.count()
    }

    /// Keeping every archetype's rows keeps the entities and their components.
    proof fn lemma_entities_frame(w1: Self, w2: Self)
        requires
            w1.entities_wf(),
            w2.entity_index@ == w1.entity_index@,
            w2.current_entity_id == w1.current_entity_id,
            forall|a: u32| #[trigger] w1.archetypes@.contains_key(a) ==> w2.archetypes@.contains_key(a)
                && Self::same_rows(w1.archetypes@[a], w2.archetypes@[a]),
        ensures
            w2.entities_wf(),
            w2@ == w1@,
    {
        assert forall|e: u32| #[trigger] w2.entity_index@.contains_key(e) implies e < w2.current_entity_id.0
            && w2.archetypes@.contains_key(w2.entity_index@[e].archetype_id.0)
            && w2.archetypes@[w2.entity_index@[e].archetype_id.0].is_live(w2.entity_index@[e].row as int)
            && w2.components_of(e) == w1.components_of(e) by {
            assert(w1.entity_index@.contains_key(e));
            let a = w1.entity_index@[e].archetype_id.0;
            assert(w1.archetypes@.contains_key(a));
            assert(w2.archetypes@[a].row_map(w1.entity_index@[e].row as int) =~= w1.archetypes@[a].row_map(w1.entity_index@[e].row as int));
        }
        assert(w2@ =~= w1@);
    }

    /// Caching, in archetype `src`, the neighbour `b` reached by adding `t`
    /// (`adding`) or by removing it keeps the tables consistent when `b` is
    /// that neighbour.
    proof fn lemma_src_edge(w2: Self, w3: Self, src: u32, t: TypeKey, b: u32, adding: bool)
        requires
            w2.tables_core(),
            w2.archetypes@.contains_key(src),
            adding ==> Self::add_edge(w2.archetypes@, src, t, b),
            !adding ==> Self::remove_edge(w2.archetypes@, src, t, b),
            w3.archetypes@ == w2.archetypes@.insert(src, w3.archetypes@[src]),
            w3.archetypes@[src].wf(),
            w3.archetypes@[src].id == w2.archetypes@[src].id,
            w3.archetypes@[src].ids() == w2.archetypes@[src].ids(),
            adding ==> w3.archetypes@[src].remove_archetypes@ == w2.archetypes@[src].remove_archetypes@
                && w3.archetypes@[src].add_archetypes@ == w2.archetypes@[src].add_archetypes@.insert(t, ArchetypeId(b)),
            !adding ==> w3.archetypes@[src].add_archetypes@ == w2.archetypes@[src].add_archetypes@
                && w3.archetypes@[src].remove_archetypes@ == w2.archetypes@[src].remove_archetypes@.insert(t, ArchetypeId(b)),
            w3.archetype_index@ == w2.archetype_index@,
            w3.component_index@ == w2.component_index@,
            w3.current_arch_id == w2.current_arch_id,
        ensures
            w3.tables_core(),
    {
        assert forall|a: u32| #[trigger] w3.archetypes@.contains_key(a) implies w3.archetypes@[a].wf()
            && w3.archetypes@[a].id.0 == a && a < w3.current_arch_id.0 by {
            assert(w2.archetypes@.contains_key(a));
        }
        assert forall|i: int| 0 <= i < w3.archetype_index@.len() implies w3.archetypes@.contains_key((#[trigger] w3.archetype_index@[i]).1.0)
            && w3.archetypes@[w3.archetype_index@[i].1.0].ids() == w3.archetype_index@[i].0@ by {
            assert(w2.archetypes@.contains_key(w2.archetype_index@[i].1.0));
        }
        assert forall|tt: TypeKey, a: u32| w3.archetypes@.contains_key(a) && #[trigger] w3.archetypes@[a].ids().contains(tt)
            implies w3.component_index@.contains_key(tt) && w3.component_index@[tt]@.contains_key(a) by {
            assert(w2.archetypes@[a].ids().contains(tt));
        }
        assert forall|a: u32, tt: TypeKey| w3.archetypes@.contains_key(a) && #[trigger] w3.archetypes@[a].add_archetypes@.contains_key(tt)
            implies Self::add_edge(w3.archetypes@, a, tt, w3.archetypes@[a].add_archetypes@[tt].0) by {
            let c = w3.archetypes@[a].add_archetypes@[tt].0;
            if !(adding && a == src && tt == t) {
                assert(w2.archetypes@[a].add_archetypes@.contains_key(tt));
                assert(Self::add_edge(w2.archetypes@, a, tt, c));
            }
            let p = choose|p: int| #[trigger] is_insertion_point(w2.archetypes@[a].ids(), tt, p)
                && w2.archetypes@[c].ids() == w2.archetypes@[a].ids().insert(p, tt);
            assert(is_insertion_point(w3.archetypes@[a].ids(), tt, p));
        }
        assert forall|a: u32, tt: TypeKey| w3.archetypes@.contains_key(a) && #[trigger] w3.archetypes@[a].remove_archetypes@.contains_key(tt)
            implies Self::remove_edge(w3.archetypes@, a, tt, w3.archetypes@[a].remove_archetypes@[tt].0) by {
            let c = w3.archetypes@[a].remove_archetypes@[tt].0;
            if !(!adding && a == src && tt == t) {
                assert(w2.archetypes@[a].remove_archetypes@.contains_key(tt));
                assert(Self::remove_edge(w2.archetypes@, a, tt, c));
            }
            let p = choose|p: int| 0 <= p < w2.archetypes@[a].ids().len() && #[trigger] w2.archetypes@[a].ids()[p] == tt
                && w2.archetypes@[c].ids() == w2.archetypes@[a].ids().remove(p);
            assert(w3.archetypes@[a].ids()[p] == tt);
        }
    }

    /// An empty world.
    pub fn new() -> (w: Self)
        ensures
            w.wf(),
            w@ == Map::<EntityId, Map<TypeKey, V>>::empty(),
            w.resource_map() == Map::<TypeKey, V>::empty(),
            w.next_entity_id() == 0,
            w.next_archetype_id() == 0,
            forall|k: nat| k + 1 < u32::MAX ==> #[trigger] w.has_room(k),
    {
        let w = World {
            entity_index: HashMap::new(),
            resources: HashMap::new(),
            archetypes: HashMap::new(),
            archetype_index: Vec::new(),
            component_index: HashMap::new(),
            current_arch_id: ArchetypeId(0),
            current_entity_id: EntityId(0),
        };
        assert(w@ =~= Map::<EntityId, Map<TypeKey, V>>::empty());
        w
    }

    // region: resources

    /// Inserts the resource of type `type_id`, replacing any earlier one.
    pub fn insert_resource(&mut self, type_id: TypeKey, resource: V)
        ensures
            final(self).resource_map() == old(self).resource_map().insert(type_id, resource),
            final(self)@ == old(self)@,
            final(self).wf() == old(self).wf(),
            forall|k: nat| #[trigger] final(self).has_room(k) == old(self).has_room(k),
            final(self).next_entity_id() == old(self).next_entity_id(),
    {
        let ghost w1 = *self;
        self.resources.insert(type_id, resource);
        proof {
            Self::lemma_resource_frame(w1, *self);
        }
    }

    /// Whether a resource of type `type_id` is present.
    pub fn has_resource(&self, type_id: TypeKey) -> (b: bool)
        ensures
            b == self.resource_map().contains_key(type_id),
    {
        self.resources.contains_key(&type_id)
    }

    /// The resource of type `type_id`, if present.
    pub fn get_resource(&self, type_id: TypeKey) -> (r: Option<&V>)
        ensures
            match r {
                Some(v) => self.resource_map().contains_key(type_id) && *v == self.resource_map()[type_id],
                None => !self.resource_map().contains_key(type_id),
            },
    {
        self.resources.get(&type_id)
    }

    /// Mutable access to the resource of type `type_id`, if present.
    pub fn get_resource_mut(&mut self, type_id: TypeKey) -> (r: Option<&mut V>)
        ensures
            final(self)@ == old(self)@,
            final(self).wf() == old(self).wf(),
            forall|k: nat| #[trigger] final(self).has_room(k) == old(self).has_room(k),
            final(self).next_entity_id() == old(self).next_entity_id(),
            match r {
                Some(v) => old(self).resource_map().contains_key(type_id) && *v == old(self).resource_map()[type_id]
                    && final(self).resource_map() == old(self).resource_map().insert(type_id, *final(v)),
                None => !old(self).resource_map().contains_key(type_id) && final(self).resource_map()
                    == old(self).resource_map(),
            },
    {
        proof {
            assert forall|w: World<V>|
                #![trigger w.wf()]
                #![trigger w.view()]
                w.entity_index == old(self).entity_index && w.archetypes == old(self).archetypes
                    && w.archetype_index == old(self).archetype_index && w.component_index == old(self).component_index
                    && w.current_arch_id == old(self).current_arch_id && w.current_entity_id == old(self).current_entity_id
                implies w@ == old(self)@ && w.wf() == old(self).wf()
                    && forall|k: nat| #[trigger] w.has_room(k) == old(self).has_room(k) by {
                Self::lemma_resource_frame(w, *old(self));
            }
        }
        get_mut(&mut self.resources, type_id)
    }

    // endregion

    /// Whether `entity` is live and has a component of type `component_id`.
    pub fn has_component(&self, entity: EntityId, component_id: TypeKey) -> (b: bool)
        requires
            self.wf(),
        ensures
            b == (self@.contains_key(entity) && self@[entity].contains_key(component_id)),
    {
        let info = match self.entity_index.get(&entity.0) {
            Some(info) => info,
            None => {
                return false;
            },
        };
        let map = match self.component_index.get(&component_id) {
            Some(map) => map,
            None => {
                proof {
                    assert(!self.archetypes@[info.archetype_id.0].ids().contains(component_id));
                }
                return false;
            },
        };
        map.contains_key(&info.archetype_id.0)
    }

    /// The component of type `component_id` of `entity`.
    pub fn get_component(&self, entity: EntityId, component_id: TypeKey) -> (r: Result<&V, ECSError>)
        requires
            self.wf(),
        ensures
            !self@.contains_key(entity) ==> r == Err::<&V, ECSError>(ECSError::InvalidEntityId(entity)),
            self@.contains_key(entity) && !self@[entity].contains_key(component_id) ==> r == Err::<&V, ECSError>(
                ECSError::ComponentAbscentFromArchetype(component_id, self.location(entity).archetype_id),
            ),
            self@.contains_key(entity) && self@[entity].contains_key(component_id) ==> r is Ok,
            r matches Ok(v) ==> self@.contains_key(entity) && self@[entity].contains_key(component_id)
                && *v == self@[entity][component_id],
    {
        let entity_info = match self.entity_index.get(&entity.0) {
            Some(info) => info,
            None => {
                return Err(ECSError::InvalidEntityId(entity));
            },
        };
        let archetype = match self.archetypes.get(&entity_info.archetype_id.0) {
            Some(a) => a,
            None => {
                return Err(ECSError::ArchetypeNotFound(entity_info.archetype_id));
            },
        };
        archetype.get_component(entity_info.row, component_id)
    }

    /// Removes `entity` and its components. An entity that is not live is refused.
    pub fn despawn(&mut self, entity_id: EntityId) -> (r: Result<(), ECSError>)
        requires
            old(self).wf(),
        ensures
            final(self).wf(),
            old(self)@.contains_key(entity_id) <==> r is Ok,
            r is Err ==> r == Err::<(), ECSError>(ECSError::InvalidEntityId(entity_id)) && final(self)@ == old(self)@,
            r is Ok ==> final(self)@ == old(self)@.remove(entity_id),
            final(self).resource_map() == old(self).resource_map(),
            final(self).next_entity_id() == old(self).next_entity_id(),
            final(self).next_archetype_id() == old(self).next_archetype_id(),
            forall|k: nat| old(self).has_room(k) ==> #[trigger] final(self).has_room(k),
    {
        let ghost w1 = *self;
        match self.entity_index.remove(&entity_id.0) {
            Some(entity_info) => {
                let ghost a = entity_info.archetype_id.0;
                let ghost row = entity_info.row as int;
                let archetype = match get_mut(&mut self.archetypes, entity_info.archetype_id.0) {
                    Some(archetype) => archetype,
                    None => {
                        return Err(ECSError::ArchetypeNotFound(entity_info.archetype_id));
                    },
                };
                archetype.remove_row(entity_info.row)?;
                proof {
                    let a1 = w1.archetypes@[a];
                    let a2 = self.archetypes@[a];
                    assert(self.archetypes@ == w1.archetypes@.insert(a, a2));
                    assert forall|x: u32| #[trigger] w1.archetypes@.contains_key(x) implies self.archetypes@[x].wf()
                        && Self::same_shape(w1.archetypes@[x], self.archetypes@[x]) by {}
                    assert(self.archetypes@.dom() =~= w1.archetypes@.dom());
                    Self::lemma_tables_frame(w1, *self);
                    assert forall|e: u32| #[trigger] self.entity_index@.contains_key(e) implies e < self.current_entity_id.0
                        && self.archetypes@.contains_key(self.entity_index@[e].archetype_id.0)
                        && self.archetypes@[self.entity_index@[e].archetype_id.0].is_live(self.entity_index@[e].row as int)
                        && self.components_of(e) == w1.components_of(e) by {
                        assert(w1.entity_index@.contains_key(e) && e != entity_id.0);
                        let info = w1.entity_index@[e];
                        if info.archetype_id.0 == a {
                            assert(info != entity_info);
                            assert(a1.is_live(info.row as int));
                        }
                    }
                    assert(self@ =~= w1@.remove(entity_id));
                    assert forall|k: nat| w1.has_room(k) implies #[trigger] self.has_room(k) by {
                        Self::lemma_room(w1, *self, k, 0);
                    }
                }
                Ok(())
            },
            None => {
                proof {
                    assert(self@ =~= w1@);
                }
                Err(ECSError::InvalidEntityId(entity_id))
            },
        }
    }

    /// Creates an entity with the components of `bundle` and returns its
    /// identifier; identifiers are handed out in increasing order.
    pub fn spawn(&mut self, bundle: Bundle<V>) -> (r: Result<EntityId, ECSError>)
        requires
            old(self).wf(),
            old(self).has_room(0),
            bundle.wf(),
            bundle.keys().len() + 1 < u32::MAX,
        ensures
            final(self).wf(),
            r == Ok::<EntityId, ECSError>(EntityId(old(self).next_entity_id())),
            !old(self)@.contains_key(EntityId(old(self).next_entity_id())),
            final(self)@ == old(self)@.insert(EntityId(old(self).next_entity_id()), bundle.view_map()),
            final(self).next_entity_id() == old(self).next_entity_id() + 1,
            old(self).next_archetype_id() <= final(self).next_archetype_id() <= old(self).next_archetype_id() + 1,
            final(self).resource_map() == old(self).resource_map(),
            forall|k: nat| old(self).has_room(k + 1) && bundle.keys().len() + 1 + k < u32::MAX
                ==> #[trigger] final(self).has_room(k),
    {
        let ghost w1 = *self;
        let ghost n = self.current_entity_id.0;
        let bundle_ids = bundle.component_ids();
        let new_entity_id: EntityId;
        proof {
            assert(!w1.entity_index@.contains_key(n));
            assert(!w1@.contains_key(EntityId(n)));
        }
        match index_get(&self.archetype_index, &bundle_ids) {
            Some(archetype_id) => {
                proof {
                    let i = choose|i: int| 0 <= i < w1.archetype_index@.len() && (#[trigger] w1.archetype_index@[i]).0@ == bundle_ids@
                        && w1.archetype_index@[i].1 == archetype_id;
                    assert(w1.archetypes@.contains_key(w1.archetype_index@[i].1.0));
                }
                let ghost a = archetype_id.0;
                let ghost a1 = w1.archetypes@[a];
                let archetype = match get_mut(&mut self.archetypes, archetype_id.0) {
                    Some(archetype) => archetype,
                    None => {
                        return Err(ECSError::ArchetypeNotFound(archetype_id));
                    },
                };
                let entity_row = archetype.insert_bundle(bundle)?;
                new_entity_id = self.current_entity_id.next();
                self.entity_index.insert(new_entity_id.0, EntityInfo { archetype_id, row: entity_row });
                proof {
                    let a2 = self.archetypes@[a];
                    assert(self.archetypes@ == w1.archetypes@.insert(a, a2));
                    assert forall|x: u32| #[trigger] w1.archetypes@.contains_key(x) implies self.archetypes@[x].wf()
                        && Self::same_shape(w1.archetypes@[x], self.archetypes@[x]) by {}
                    assert(self.archetypes@.dom() =~= w1.archetypes@.dom());
                    Self::lemma_tables_frame(w1, *self);
                    assert forall|e: u32| #[trigger] self.entity_index@.contains_key(e) && e != n implies
                        w1.entity_index@.contains_key(e)
                        && self.entity_index@[e] == w1.entity_index@[e]
                        && self.archetypes@.contains_key(self.entity_index@[e].archetype_id.0)
                        && self.archetypes@[self.entity_index@[e].archetype_id.0].is_live(self.entity_index@[e].row as int)
                        && self.components_of(e) == w1.components_of(e)
                        && (self.entity_index@[e].archetype_id.0 == a ==> self.entity_index@[e].row != entity_row) by {
                        let info = w1.entity_index@[e];
                        if info.archetype_id.0 == a {
                            assert(a1.is_live(info.row as int));
                        }
                    }
                    assert forall|e: u32| #[trigger] self.entity_index@.contains_key(e) implies e < self.current_entity_id.0
                        && self.archetypes@.contains_key(self.entity_index@[e].archetype_id.0)
                        && self.archetypes@[self.entity_index@[e].archetype_id.0].is_live(self.entity_index@[e].row as int) by {
                        if e != n {
                            assert(w1.entity_index@.contains_key(e));
                        }
                    }
                    assert forall|e1: u32, e2: u32| #[trigger] self.entity_index@.contains_key(e1) && #[trigger] self.entity_index@.contains_key(e2)
                        && e1 != e2 implies self.entity_index@[e1] != self.entity_index@[e2] by {
                        if e1 != n && e2 != n {
                            assert(w1.entity_index@.contains_key(e1) && w1.entity_index@.contains_key(e2));
                        }
                    }
                    assert(self.components_of(n) == bundle.view_map());
                    assert(self@ =~= w1@.insert(EntityId(n), bundle.view_map()));
                    assert forall|k: nat| w1.has_room(k + 1) && bundle.keys().len() + 1 + k < u32::MAX
                        implies #[trigger] self.has_room(k) by {
                        Self::lemma_room(w1, *self, k, 1);
                    }
                }
            },
            None => {
                let bundle_infos = bundle.component_infos();
                let new_archetype_id = self.current_arch_id.next();
                proof {
                    assert forall|t: TypeKey| #[trigger] self.component_index@.contains_key(t) implies
                        !self.component_index@[t]@.contains_key(new_archetype_id.0) by {
                        if self.component_index@[t]@.contains_key(new_archetype_id.0) {
                            assert(w1.archetypes@.contains_key(new_archetype_id.0));
                        }
                    }
                    assert(bundle_infos@.map_values(|i: ComponentInfo| i.type_id) =~= bundle.keys());
                    lemma_sorted_distinct(bundle.keys());
                }
                register_archetype(&mut self.component_index, &bundle_ids, new_archetype_id);
                index_insert(&mut self.archetype_index, bundle_ids, new_archetype_id);
                let mut new_archetype = Archetype::new(new_archetype_id, bundle_infos);
                let entity_row = new_archetype.insert_bundle(bundle)?;
                new_entity_id = self.current_entity_id.next();
                self.entity_index.insert(new_entity_id.0, EntityInfo { archetype_id: new_archetype_id, row: entity_row });
                let ghost b = new_archetype;
                self.archetypes.insert(new_archetype.id.0, new_archetype);
                proof {
                    let nb = new_archetype_id.0;
                    Self::lemma_add_archetype(w1, *self, b);
                    assert forall|e: u32| #[trigger] self.entity_index@.contains_key(e) && e != n implies
                        w1.entity_index@.contains_key(e)
                        && self.entity_index@[e] == w1.entity_index@[e]
                        && self.entity_index@[e].archetype_id.0 != nb
                        && self.archetypes@.contains_key(self.entity_index@[e].archetype_id.0)
                        && self.archetypes@[self.entity_index@[e].archetype_id.0].is_live(self.entity_index@[e].row as int)
                        && self.components_of(e) == w1.components_of(e) by {
                    }
                    assert forall|e: u32| #[trigger] self.entity_index@.contains_key(e) implies e < self.current_entity_id.0
                        && self.archetypes@.contains_key(self.entity_index@[e].archetype_id.0)
                        && self.archetypes@[self.entity_index@[e].archetype_id.0].is_live(self.entity_index@[e].row as int) by {
                        if e != n {
                            assert(w1.entity_index@.contains_key(e));
                        }
                    }
                    assert forall|e1: u32, e2: u32| #[trigger] self.entity_index@.contains_key(e1) && #[trigger] self.entity_index@.contains_key(e2)
                        && e1 != e2 implies self.entity_index@[e1] != self.entity_index@[e2] by {
                        if e1 != n && e2 != n {
                            assert(w1.entity_index@.contains_key(e1) && w1.entity_index@.contains_key(e2));
                        }
                    }
                    assert(self.components_of(n) == bundle.view_map());
                    assert(self@ =~= w1@.insert(EntityId(n), bundle.view_map()));
                    assert forall|k: nat| w1.has_room(k + 1) && bundle.keys().len() + 1 + k < u32::MAX
                        implies #[trigger] self.has_room(k) by {
                        assert forall|a: u32| #[trigger] self.archetypes@.contains_key(a) implies (w1.archetypes@.contains_key(a)
                            && self.archetypes@[a].count() <= w1.archetypes@[a].count() + 1
                            && self.archetypes@[a].ids().len() == w1.archetypes@[a].ids().len())
                            || (self.archetypes@[a].count() <= 1 && self.archetypes@[a].ids().len() + 1 + k < u32::MAX) by {
                            if a == nb {
                                assert(self.archetypes@[a].ids() == bundle.keys());
                            }
                        }
                        Self::lemma_room(w1, *self, k, 1);
                    }
                }
            },
        }
        Ok(new_entity_id)
    }

    /// The archetype reached from archetype `src_id` by adding component type
    /// `component_id`, created (under the next archetype identifier) and
    /// cached in `src_id` when not known yet. The identifier is used up even
    /// when `src_id` already has that type.
    pub fn add_to_archetype(&mut self, src_id: ArchetypeId, component_id: TypeKey) -> (r: Result<ArchetypeId, ECSError>)
        requires
            old(self).wf(),
            old(self).has_room(0),
        ensures
            final(self).wf(),
            final(self)@ == old(self)@,
            final(self).resource_map() == old(self).resource_map(),
            final(self).next_entity_id() == old(self).next_entity_id(),
            forall|a: ArchetypeId| #[trigger] old(self).has_archetype(a) ==> final(self).has_archetype(a)
                && final(self).archetype_types(a) == old(self).archetype_types(a),
            forall|e: EntityId| #[trigger] old(self)@.contains_key(e) ==> final(self).location(e) == old(self).location(e),
            old(self).next_archetype_id() <= final(self).next_archetype_id() <= old(self).next_archetype_id() + 1,
            final(self).rows_below_limit(),
            forall|k: nat| old(self).has_room(k + 1) ==> #[trigger] final(self).has_room(k),
            !old(self).has_archetype(src_id) ==> r == Err::<ArchetypeId, ECSError>(ECSError::ArchetypeNotFound(src_id))
                && final(self).next_archetype_id() == old(self).next_archetype_id(),
            old(self).has_archetype(src_id) && old(self).archetype_types(src_id).contains(component_id) ==> r
                == Err::<ArchetypeId, ECSError>(ECSError::ComponentExistInArchetype(component_id, src_id)),
            old(self).has_archetype(src_id) && !old(self).archetype_types(src_id).contains(component_id) ==> r is Ok,
            r matches Ok(b) ==> final(self).has_archetype(b) && b != src_id && exists|p: int|
                #[trigger] is_insertion_point(old(self).archetype_types(src_id), component_id, p)
                    && final(self).archetype_types(b) == old(self).archetype_types(src_id).insert(p, component_id),
            r matches Ok(b) ==> (old(self).has_archetype(b) && final(self).next_archetype_id() == old(self).next_archetype_id())
                || (b.0 == old(self).next_archetype_id() && !old(self).has_archetype(b)
                    && final(self).next_archetype_id() == old(self).next_archetype_id() + 1),
            r is Err && old(self).has_archetype(src_id) ==> final(self).next_archetype_id() == old(self).next_archetype_id() + 1,
            old(self).add_neighbour(src_id, component_id) matches Some(c) ==> r == Ok::<ArchetypeId, ECSError>(c)
                && *final(self) == *old(self),
            r matches Ok(b) ==> final(self).add_neighbour(src_id, component_id) == Some(b)
                && final(self).remove_neighbour(b, component_id) == Some(src_id),
            r matches Ok(b) ==> (old(self).add_neighbour(src_id, component_id) is None ==> b.0 == old(self).next_archetype_id()
                && !old(self).has_archetype(b) && final(self).next_archetype_id() == old(self).next_archetype_id() + 1),
            forall|a: ArchetypeId, u: TypeKey| #[trigger] old(self).add_neighbour(a, u) is Some
                ==> final(self).add_neighbour(a, u) == old(self).add_neighbour(a, u),
            forall|a: ArchetypeId, u: TypeKey| #[trigger] old(self).remove_neighbour(a, u) is Some
                ==> final(self).remove_neighbour(a, u) == old(self).remove_neighbour(a, u),
    {
        let ghost w1 = *self;
        let src = match self.archetypes.get(&src_id.0) {
            Some(src) => src,
            None => {
                return Err(ECSError::ArchetypeNotFound(src_id));
            },
        };
        proof {
            assert(src.id == src_id);
        }
        if let Some(arch_id) = src.add_archetypes.get(&component_id) {
            proof {
                assert(w1.archetypes@[src_id.0].add_archetypes@.contains_key(component_id));
                assert(Self::add_edge(w1.archetypes@, src_id.0, component_id, arch_id.0));
                assert(w1.archetypes@[arch_id.0].id == *arch_id);
                let p = choose|p: int| #[trigger] is_insertion_point(w1.archetypes@[src_id.0].ids(), component_id, p)
                    && w1.archetypes@[arch_id.0].ids() == w1.archetypes@[src_id.0].ids().insert(p, component_id);
                assert(is_insertion_point(w1.archetype_types(src_id), component_id, p));
                assert(w1.archetypes@[arch_id.0].ids().len() != w1.archetypes@[src_id.0].ids().len());
            }
            return Ok(*arch_id);
        }
        let new_id = self.current_arch_id.next();
        let (new_archetype, _insert_component_idx) = src.new_from_add(new_id, ComponentInfo::new(component_id))?;
        let ghost b = new_archetype;
        proof {
            assert forall|t: TypeKey| #[trigger] self.component_index@.contains_key(t) implies
                !self.component_index@[t]@.contains_key(new_id.0) by {
                if self.component_index@[t]@.contains_key(new_id.0) {
                    assert(w1.archetypes@.contains_key(new_id.0));
                }
            }
        }
        register_archetype(&mut self.component_index, &new_archetype.component_ids, new_archetype.id);
        index_insert(&mut self.archetype_index, copy_keys(&new_archetype.component_ids), new_archetype.id);
        let new_archetype_id = new_archetype.id;
        self.archetypes.insert(new_archetype_id.0, new_archetype);
        let ghost w2 = *self;
        proof {
            let p = choose|p: int| #[trigger] is_insertion_point(w1.archetypes@[src_id.0].ids(), component_id, p)
                && b.ids() == w1.archetypes@[src_id.0].ids().insert(p, component_id);
            assert forall|t: TypeKey| #[trigger] b.remove_archetypes@.contains_key(t) implies Self::remove_edge(
                w2.archetypes@, b.id.0, t, b.remove_archetypes@[t].0) by {
                assert(t == component_id);
                assert(b.remove_archetypes@[t] == src_id);
                assert(w2.archetypes@[b.id.0] == b);
                assert(w2.archetypes@[src_id.0] == w1.archetypes@[src_id.0]);
                assert(b.ids()[p] == component_id);
                assert(b.ids().remove(p) =~= w1.archetypes@[src_id.0].ids());
            }
            Self::lemma_add_archetype(w1, w2, b);
            Self::lemma_entities_frame(w1, w2);
            assert(is_insertion_point(w2.archetypes@[src_id.0].ids(), component_id, p));
            assert(Self::add_edge(w2.archetypes@, src_id.0, component_id, new_archetype_id.0));
        }
        let src_mut = match get_mut(&mut self.archetypes, src_id.0) {
            Some(src_mut) => src_mut,
            None => {
                return Err(ECSError::ArchetypeNotFound(src_id));
            },
        };
        src_mut.add_archetypes.insert(component_id, new_archetype_id);
        proof {
            Self::lemma_src_edge(w2, *self, src_id.0, component_id, new_archetype_id.0, true);
            Self::lemma_entities_frame(w2, *self);
            let p = choose|p: int| #[trigger] is_insertion_point(w1.archetypes@[src_id.0].ids(), component_id, p)
                && b.ids() == w1.archetypes@[src_id.0].ids().insert(p, component_id);
            assert(is_insertion_point(w1.archetype_types(src_id), component_id, p));
            assert(self.archetype_types(new_archetype_id) == b.ids());
        }
        proof {
            assert forall|k: nat| w1.has_room(k + 1) implies #[trigger] self.has_room(k) by {
                assert forall|a: u32| #[trigger] self.archetypes@.contains_key(a) implies (w1.archetypes@.contains_key(a)
                    && self.archetypes@[a].count() <= w1.archetypes@[a].count() + 1
                    && self.archetypes@[a].ids().len() == w1.archetypes@[a].ids().len())
                    || (self.archetypes@[a].count() <= 1 && self.archetypes@[a].ids().len() + 1 + k < u32::MAX) by {
                    if a == new_archetype_id.0 {
                        assert(self.archetypes@[a].ids() == b.ids());
                        assert(w1.archetypes@.contains_key(src_id.0));
                    }
                }
                Self::lemma_room(w1, *self, k, 1);
            }
        }
        Ok(new_archetype_id)
    }

    /// The archetype reached from archetype `src_id` by removing component
    /// type `component_id`, created (under the next archetype identifier) and
    /// cached in `src_id` when not known yet. The identifier is used up even
    /// when `src_id` lacks that type.
    pub fn remove_from_archetype(&mut self, src_id: ArchetypeId, component_id: TypeKey) -> (r: Result<ArchetypeId, ECSError>)
        requires
            old(self).wf(),
            old(self).has_room(0),
        ensures
            final(self).wf(),
            final(self)@ == old(self)@,
            final(self).resource_map() == old(self).resource_map(),
            final(self).next_entity_id() == old(self).next_entity_id(),
            forall|a: ArchetypeId| #[trigger] old(self).has_archetype(a) ==> final(self).has_archetype(a)
                && final(self).archetype_types(a) == old(self).archetype_types(a),
            forall|e: EntityId| #[trigger] old(self)@.contains_key(e) ==> final(self).location(e) == old(self).location(e),
            old(self).next_archetype_id() <= final(self).next_archetype_id() <= old(self).next_archetype_id() + 1,
            final(self).rows_below_limit(),
            forall|k: nat| old(self).has_room(k + 1) ==> #[trigger] final(self).has_room(k),
            !old(self).has_archetype(src_id) ==> r == Err::<ArchetypeId, ECSError>(ECSError::ArchetypeNotFound(src_id))
                && final(self).next_archetype_id() == old(self).next_archetype_id(),
            old(self).has_archetype(src_id) && !old(self).archetype_types(src_id).contains(component_id) ==> r
                == Err::<ArchetypeId, ECSError>(ECSError::ComponentAbscentFromArchetype(component_id, src_id)),
            old(self).has_archetype(src_id) && old(self).archetype_types(src_id).contains(component_id) ==> r is Ok,
            r matches Ok(b) ==> final(self).has_archetype(b) && b != src_id && exists|p: int|
                0 <= p < old(self).archetype_types(src_id).len()
                    && #[trigger] old(self).archetype_types(src_id)[p] == component_id
                    && final(self).archetype_types(b) == old(self).archetype_types(src_id).remove(p),
            r matches Ok(b) ==> (old(self).has_archetype(b) && final(self).next_archetype_id() == old(self).next_archetype_id())
                || (b.0 == old(self).next_archetype_id() && !old(self).has_archetype(b)
                    && final(self).next_archetype_id() == old(self).next_archetype_id() + 1),
            r is Err && old(self).has_archetype(src_id) ==> final(self).next_archetype_id() == old(self).next_archetype_id() + 1,
            old(self).remove_neighbour(src_id, component_id) matches Some(c) ==> r == Ok::<ArchetypeId, ECSError>(c)
                && *final(self) == *old(self),
            r matches Ok(b) ==> final(self).remove_neighbour(src_id, component_id) == Some(b)
                && final(self).add_neighbour(b, component_id) == Some(src_id),
            r matches Ok(b) ==> (old(self).remove_neighbour(src_id, component_id) is None ==> b.0 == old(self).next_archetype_id()
                && !old(self).has_archetype(b) && final(self).next_archetype_id() == old(self).next_archetype_id() + 1),
            forall|a: ArchetypeId, u: TypeKey| #[trigger] old(self).add_neighbour(a, u) is Some
                ==> final(self).add_neighbour(a, u) == old(self).add_neighbour(a, u),
            forall|a: ArchetypeId, u: TypeKey| #[trigger] old(self).remove_neighbour(a, u) is Some
                ==> final(self).remove_neighbour(a, u) == old(self).remove_neighbour(a, u),
    {
        let ghost w1 = *self;
        let src = match self.archetypes.get(&src_id.0) {
            Some(src) => src,
            None => {
                return Err(ECSError::ArchetypeNotFound(src_id));
            },
        };
        proof {
            assert(src.id == src_id);
        }
        if let Some(arch_id) = src.remove_archetypes.get(&component_id) {
            proof {
                assert(w1.archetypes@[src_id.0].remove_archetypes@.contains_key(component_id));
                assert(Self::remove_edge(w1.archetypes@, src_id.0, component_id, arch_id.0));
                assert(w1.archetypes@[arch_id.0].id == *arch_id);
                let sids = w1.archetypes@[src_id.0].ids();
                let p = choose|p: int| 0 <= p < sids.len() && #[trigger] sids[p] == component_id
                    && w1.archetypes@[arch_id.0].ids() == sids.remove(p);
                assert(w1.archetype_types(src_id)[p] == component_id);
                assert(w1.archetypes@[arch_id.0].ids().len() != sids.len());
            }
            return Ok(*arch_id);
        }
        let new_id = self.current_arch_id.next();
        let (new_archetype, _deleted_component_idx) = src.new_from_delete(new_id, ComponentInfo::new(component_id))?;
        let ghost b = new_archetype;
        proof {
            assert forall|t: TypeKey| #[trigger] self.component_index@.contains_key(t) implies
                !self.component_index@[t]@.contains_key(new_id.0) by {
                if self.component_index@[t]@.contains_key(new_id.0) {
                    assert(w1.archetypes@.contains_key(new_id.0));
                }
            }
        }
        register_archetype(&mut self.component_index, &new_archetype.component_ids, new_archetype.id);
        index_insert(&mut self.archetype_index, copy_keys(&new_archetype.component_ids), new_archetype.id);
        let new_archetype_id = new_archetype.id;
        self.archetypes.insert(new_archetype_id.0, new_archetype);
        let ghost w2 = *self;
        proof {
            let sids = w1.archetypes@[src_id.0].ids();
            let p = choose|p: int| 0 <= p < sids.len() && #[trigger] sids[p] == component_id && b.ids() == sids.remove(p);
            assert forall|t: TypeKey| #[trigger] b.add_archetypes@.contains_key(t) implies Self::add_edge(
                w2.archetypes@, b.id.0, t, b.add_archetypes@[t].0) by {
                assert(t == component_id);
                lemma_sorted_distinct(sids);
                assert(!b.ids().contains(component_id)) by {
                    if b.ids().contains(component_id) {
                        let i = choose|i: int| 0 <= i < b.ids().len() && b.ids()[i] == component_id;
                        let ii = if i < p { i } else { i + 1 };
                        assert(sids[ii] == sids[p]);
                    }
                }
                assert(b.ids().insert(p, component_id) =~= sids);
                crate::search::lemma_sorted_insert_is_insertion_point(b.ids(), component_id, p);
            }
            Self::lemma_add_archetype(w1, w2, b);
            Self::lemma_entities_frame(w1, w2);
            assert(w2.archetypes@[src_id.0].ids()[p] == component_id);
            assert(Self::remove_edge(w2.archetypes@, src_id.0, component_id, new_archetype_id.0));
        }
        let src_mut = match get_mut(&mut self.archetypes, src_id.0) {
            Some(src_mut) => src_mut,
            None => {
                return Err(ECSError::ArchetypeNotFound(src_id));
            },
        };
        src_mut.remove_archetypes.insert(component_id, new_archetype_id);
        proof {
            Self::lemma_src_edge(w2, *self, src_id.0, component_id, new_archetype_id.0, false);
            Self::lemma_entities_frame(w2, *self);
            let sids = w1.archetypes@[src_id.0].ids();
            let p = choose|p: int| 0 <= p < sids.len() && #[trigger] sids[p] == component_id && b.ids() == sids.remove(p);
            assert(w1.archetype_types(src_id)[p] == component_id);
            assert(self.archetype_types(new_archetype_id) == b.ids());
        }
        proof {
            assert forall|k: nat| w1.has_room(k + 1) implies #[trigger] self.has_room(k) by {
                assert forall|a: u32| #[trigger] self.archetypes@.contains_key(a) implies (w1.archetypes@.contains_key(a)
                    && self.archetypes@[a].count() <= w1.archetypes@[a].count() + 1
                    && self.archetypes@[a].ids().len() == w1.archetypes@[a].ids().len())
                    || (self.archetypes@[a].count() <= 1 && self.archetypes@[a].ids().len() + 1 + k < u32::MAX) by {
                    if a == new_archetype_id.0 {
                        assert(self.archetypes@[a].ids() == b.ids());
                        assert(w1.archetypes@.contains_key(src_id.0));
                    }
                }
                Self::lemma_room(w1, *self, k, 1);
            }
        }
        Ok(new_archetype_id)
    }

    /// Adds `component` to the live `entity`, moving it to the archetype with
    /// that type added; its other components are kept. An entity that is not
    /// live, or that has a component of that type already, is refused.
    pub fn add_component(&mut self, entity: EntityId, component: RawComponent<V>) -> (r: Result<(), ECSError>)
        requires
            old(self).wf(),
            old(self).has_room(0),
        ensures
            final(self).wf(),
            final(self).resource_map() == old(self).resource_map(),
            final(self).next_entity_id() == old(self).next_entity_id(),
            old(self).next_archetype_id() <= final(self).next_archetype_id() <= old(self).next_archetype_id() + 1,
            !old(self)@.contains_key(entity) ==> r == Err::<(), ECSError>(ECSError::InvalidEntityId(entity))
                && final(self)@ == old(self)@,
            old(self)@.contains_key(entity) && old(self)@[entity].contains_key(component.info.type_id) ==> r
                == Err::<(), ECSError>(
                ECSError::ComponentExistInArchetype(component.info.type_id, old(self).location(entity).archetype_id),
            ) && final(self)@ == old(self)@,
            old(self)@.contains_key(entity) && !old(self)@[entity].contains_key(component.info.type_id) ==> r is Ok
                && final(self)@ == old(self)@.insert(entity, old(self)@[entity].insert(component.info.type_id, component.value)),
            forall|k: nat| old(self).has_room(k + 2) ==> #[trigger] final(self).has_room(k),
    {
        let ghost w1 = *self;
        let t = component.info.type_id;
        let entity_info_copy = match self.entity_index.get(&entity.0) {
            Some(info) => *info,
            None => {
                return Err(ECSError::InvalidEntityId(entity));
            },
        };
        let ghost a = entity_info_copy.archetype_id.0;
        let ghost row = entity_info_copy.row;
        proof {
            assert(w1@[entity] == w1.archetypes@[a].row_map(row as int));
            assert(w1.has_archetype(entity_info_copy.archetype_id));
        }
        let new_archetype_id = self.add_to_archetype(entity_info_copy.archetype_id, t)?;
        let ghost w2 = *self;
        let ghost b = new_archetype_id.0;
        proof {
            assert(w1@.contains_key(entity));
            assert(w2@.contains_key(entity));
            assert(w2.location(entity) == w1.location(entity));
            assert(w2.archetype_types(entity_info_copy.archetype_id) == w1.archetype_types(entity_info_copy.archetype_id));
            assert(w2.entity_index@.contains_key(entity.0));
            assert(w2.archetypes@[a].is_live(row as int));
            assert(w2.archetypes@[a].row_map(row as int) == w1.archetypes@[a].row_map(row as int)) by {
                assert(w2@[entity] == w1@[entity]);
            }
        }
        let old_archetype = match get_mut(&mut self.archetypes, entity_info_copy.archetype_id.0) {
            Some(old_archetype) => old_archetype,
            None => {
                return Err(ECSError::ArchetypeNotFound(new_archetype_id));
            },
        };
        let mut old_entity_data = old_archetype.remove_raw_component(entity_info_copy.row)?;
        let ghost w3 = *self;
        let ghost d = old_entity_data@;
        proof {
            lemma_sorted_distinct(w2.archetypes@[a].ids());
        }
        let new_component_index = match raw_binary_search(&old_entity_data, t) {
            Ok(_) => {
                proof {
                    assert(w2.archetypes@[a].ids().contains(t));
                }
                vstd::pervasive::unreached()
            },
            Err(p) => p,
        };
        proof {
            let q = choose|q: int| #[trigger] is_insertion_point(w2.archetype_types(entity_info_copy.archetype_id), t, q)
                && w2.archetype_types(new_archetype_id) == w1.archetype_types(entity_info_copy.archetype_id).insert(q, t);
            crate::search::lemma_insertion_point_unique(w2.archetypes@[a].ids(), t, q, new_component_index as int);
            lemma_raw_map_insert(d, new_component_index as int, component);
        }
        let ghost x = component;
        old_entity_data.insert(new_component_index, component);
        proof {
            assert(b != a);
            assert(w3.archetypes@[b] == w2.archetypes@[b]);
            assert(raw_keys(old_entity_data@) == w3.archetypes@[b].ids());
            lemma_sorted_distinct(w3.archetypes@[b].ids());
            Archetype::<V>::lemma_positional_raw(w3.archetypes@[b].ids(), old_entity_data@);
        }
        let ghost dd = old_entity_data@;
        let new_archetype = match get_mut(&mut self.archetypes, new_archetype_id.0) {
            Some(new_archetype) => new_archetype,
            None => {
                return Err(ECSError::ArchetypeNotFound(new_archetype_id));
            },
        };
        let new_row = new_archetype.insert_row_ptr(old_entity_data)?;
        self.entity_index.insert(entity.0, EntityInfo { archetype_id: new_archetype_id, row: new_row });
        proof {
            Self::lemma_entity_moved(w2, *self, entity.0, b, new_row);
            assert(self.components_of(entity.0) == w1@[entity].insert(t, x.value));
            assert(self@ =~= w1@.insert(entity, w1@[entity].insert(t, x.value)));
            assert forall|k: nat| w1.has_room(k + 2) implies #[trigger] self.has_room(k) by {
                assert(w2.has_room(k + 1));
                Self::lemma_room(w2, *self, k, 1);
            }
        }
        Ok(())
    }

    /// Removes the component of type `component_id` from the live `entity`
    /// and returns it, moving the entity to the archetype with that type
    /// removed; its other components are kept. An entity that is not live, or
    /// that has no component of that type, is refused.
    pub fn remove_component(&mut self, entity: EntityId, component_id: TypeKey) -> (r: Result<V, ECSError>)
        requires
            old(self).wf(),
            old(self).has_room(0),
        ensures
            final(self).wf(),
            final(self).resource_map() == old(self).resource_map(),
            final(self).next_entity_id() == old(self).next_entity_id(),
            old(self).next_archetype_id() <= final(self).next_archetype_id() <= old(self).next_archetype_id() + 1,
            !old(self)@.contains_key(entity) ==> r == Err::<V, ECSError>(ECSError::InvalidEntityId(entity))
                && final(self)@ == old(self)@,
            old(self)@.contains_key(entity) && !old(self)@[entity].contains_key(component_id) ==> r
                == Err::<V, ECSError>(
                ECSError::ComponentAbscentFromArchetype(component_id, old(self).location(entity).archetype_id),
            ) && final(self)@ == old(self)@,
            old(self)@.contains_key(entity) && old(self)@[entity].contains_key(component_id) ==> r
                == Ok::<V, ECSError>(old(self)@[entity][component_id])
                && final(self)@ == old(self)@.insert(entity, old(self)@[entity].remove(component_id)),
            forall|k: nat| old(self).has_room(k + 2) ==> #[trigger] final(self).has_room(k),
    {
        let ghost w1 = *self;
        let t = component_id;
        let entity_info_copy = match self.entity_index.get(&entity.0) {
            Some(info) => *info,
            None => {
                return Err(ECSError::InvalidEntityId(entity));
            },
        };
        let ghost a = entity_info_copy.archetype_id.0;
        let ghost row = entity_info_copy.row;
        proof {
            assert(w1@[entity] == w1.archetypes@[a].row_map(row as int));
            assert(w1.has_archetype(entity_info_copy.archetype_id));
        }
        let new_archetype_id = self.remove_from_archetype(entity_info_copy.archetype_id, t)?;
        let ghost w2 = *self;
        let ghost b = new_archetype_id.0;
        proof {
            assert(w1@.contains_key(entity));
            assert(w2@.contains_key(entity));
            assert(w2.location(entity) == w1.location(entity));
            assert(w2.archetype_types(entity_info_copy.archetype_id) == w1.archetype_types(entity_info_copy.archetype_id));
            assert(w2.archetypes@[a].is_live(row as int));
            assert(w2.archetypes@[a].row_map(row as int) == w1.archetypes@[a].row_map(row as int)) by {
                assert(w2@[entity] == w1@[entity]);
            }
        }
        let old_archetype = match get_mut(&mut self.archetypes, entity_info_copy.archetype_id.0) {
            Some(old_archetype) => old_archetype,
            None => {
                return Err(ECSError::ArchetypeNotFound(new_archetype_id));
            },
        };
        let mut old_entity_data = old_archetype.remove_raw_component(entity_info_copy.row)?;
        let ghost w3 = *self;
        let ghost d = old_entity_data@;
        proof {
            lemma_sorted_distinct(w2.archetypes@[a].ids());
        }
        let remove_component_index = match raw_binary_search(&old_entity_data, t) {
            Ok(i) => i,
            Err(_) => {
                proof {
                    assert(!w2.archetypes@[a].ids().contains(t));
                    let sids = w2.archetype_types(entity_info_copy.archetype_id);
                    let q = choose|q: int| 0 <= q < sids.len() && #[trigger] sids[q] == t
                        && w2.archetype_types(new_archetype_id) == sids.remove(q);
                    assert(sids.contains(t));
                }
                vstd::pervasive::unreached()
            },
        };
        proof {
            let sids = w2.archetypes@[a].ids();
            let q = choose|q: int| 0 <= q < sids.len() && #[trigger] sids[q] == t
                && w2.archetype_types(new_archetype_id) == sids.remove(q);
            lemma_key_index(sids, q);
            lemma_key_index(sids, remove_component_index as int);
            assert(q == remove_component_index);
            lemma_raw_map_remove(d, remove_component_index as int);
        }
        let raw_component = old_entity_data.remove(remove_component_index);
        proof {
            assert(b != a);
            assert(w3.archetypes@[b] == w2.archetypes@[b]);
            assert(raw_keys(old_entity_data@) == w3.archetypes@[b].ids());
            lemma_sorted_distinct(w3.archetypes@[b].ids());
            Archetype::<V>::lemma_positional_raw(w3.archetypes@[b].ids(), old_entity_data@);
        }
        let new_archetype = match get_mut(&mut self.archetypes, new_archetype_id.0) {
            Some(new_archetype) => new_archetype,
            None => {
                return Err(ECSError::ArchetypeNotFound(new_archetype_id));
            },
        };
        let new_row = new_archetype.insert_row_ptr(old_entity_data)?;
        self.entity_index.insert(entity.0, EntityInfo { archetype_id: new_archetype_id, row: new_row });
        proof {
            Self::lemma_entity_moved(w2, *self, entity.0, b, new_row);
            assert(self.components_of(entity.0) == w1@[entity].remove(t));
            assert(self@ =~= w1@.insert(entity, w1@[entity].remove(t)));
            assert forall|k: nat| w1.has_room(k + 2) implies #[trigger] self.has_room(k) by {
                assert(w2.has_room(k + 1));
                Self::lemma_room(w2, *self, k, 1);
            }
        }
        Ok(raw_component.into_cast(t))
    }

    /// Moving entity `e0` from its row to row `new_row` of another
    /// archetype `b`, keeping every other row of both archetypes, keeps the
    /// world consistent and changes only that entity's components.
    proof fn lemma_entity_moved(w2: Self, w3: Self, e0: u32, b: u32, new_row: u32)
        requires
            w2.wf(),
            w2.entity_index@.contains_key(e0),
            w2.entity_index@[e0].archetype_id.0 != b,
            w2.archetypes@.contains_key(b),
            ({
                let a = w2.entity_index@[e0].archetype_id.0;
                let row = w2.entity_index@[e0].row;
            &&& w3.archetypes@ == w2.archetypes@.insert(a, w3.archetypes@[a]).insert(b, w3.archetypes@[b])
            &&& w3.archetypes@[a].wf()
            &&& Self::same_shape(w2.archetypes@[a], w3.archetypes@[a])
            &&& w2.archetypes@[a].other_rows_kept(&w3.archetypes@[a], row as int)
            &&& w3.archetypes@[b].wf()
            &&& Self::same_shape(w2.archetypes@[b], w3.archetypes@[b])
            &&& w2.archetypes@[b].other_rows_kept(&w3.archetypes@[b], new_row as int)
            &&& !w2.archetypes@[b].is_live(new_row as int)
            &&& w3.archetypes@[b].is_live(new_row as int)
        }),
        w3.entity_index@ == w2.entity_index@.insert(e0, EntityInfo { archetype_id: ArchetypeId(b), row: new_row }),
        w3.archetype_index@ == w2.archetype_index@,
        w3.component_index@ == w2.component_index@,
        w3.current_arch_id == w2.current_arch_id,
        w3.current_entity_id == w2.current_entity_id,
        ensures
        w3.wf(),
        forall|e: u32| #[trigger] w3.entity_index@.contains_key(e) && e != e0
            ==> w2.entity_index@.contains_key(e) && w3.components_of(e) == w2.components_of(e),
        w3.entity_index@.dom() == w2.entity_index@.dom(),
        w3.components_of(e0) == w3.archetypes@[b].row_map(new_row as int),
    {
        let a = w2.entity_index@[e0].archetype_id.0;
        let row = w2.entity_index@[e0].row;
        let aa1 = w2.archetypes@[a];
        let aa2 = w3.archetypes@[a];
        let bb1 = w2.archetypes@[b];
        let bb2 = w3.archetypes@[b];
        assert(w3.archetypes@ == w2.archetypes@.insert(a, aa2).insert(b, bb2));
        assert forall|z: u32| #[trigger] w2.archetypes@.contains_key(z) implies w3.archetypes@[z].wf()
            && Self::same_shape(w2.archetypes@[z], w3.archetypes@[z]) by {}
        assert(w3.archetypes@.dom() =~= w2.archetypes@.dom());
        Self::lemma_tables_frame(w2, w3);
        assert forall|e: u32| #[trigger] w3.entity_index@.contains_key(e) && e != e0 implies
            w2.entity_index@.contains_key(e)
            && w3.entity_index@[e] == w2.entity_index@[e]
            && w3.archetypes@.contains_key(w3.entity_index@[e].archetype_id.0)
            && w3.archetypes@[w3.entity_index@[e].archetype_id.0].is_live(w3.entity_index@[e].row as int)
            && w3.components_of(e) == w2.components_of(e)
            && (w3.entity_index@[e].archetype_id.0 == b ==> w3.entity_index@[e].row != new_row) by {
            let info = w2.entity_index@[e];
            assert(info != w2.entity_index@[e0]);
            if info.archetype_id.0 == a {
                assert(aa1.is_live(info.row as int));
                assert(info.row != row);
            }
            if info.archetype_id.0 == b {
                assert(bb1.is_live(info.row as int));
            }
        }
        assert forall|e: u32| #[trigger] w3.entity_index@.contains_key(e) implies e < w3.current_entity_id.0
            && w3.archetypes@.contains_key(w3.entity_index@[e].archetype_id.0)
            && w3.archetypes@[w3.entity_index@[e].archetype_id.0].is_live(w3.entity_index@[e].row as int) by {
            if e != e0 {
                assert(w2.entity_index@.contains_key(e));
            }
        }
        assert forall|e1: u32, e2: u32| #[trigger] w3.entity_index@.contains_key(e1) && #[trigger] w3.entity_index@.contains_key(e2)
            && e1 != e2 implies w3.entity_index@[e1] != w3.entity_index@[e2] by {
            if e1 != e0 && e2 != e0 {
                assert(w2.entity_index@.contains_key(e1) && w2.entity_index@.contains_key(e2));
            }
        }
        assert(w3.entity_index@.dom() =~= w2.entity_index@.dom());
    }

    /// Changing, in place, the components of one entity's row keeps the world
    /// consistent and changes only that entity's components.
    proof fn lemma_row_update(w1: Self, e: u32)
        requires
            w1.wf(),
            w1.entity_index@.contains_key(e),
        ensures
            forall|w2: Self|
                #![trigger w2.wf()]
                #![trigger w2.view()]
                w2.entity_index == w1.entity_index && w2.resources == w1.resources
                    && w2.archetype_index == w1.archetype_index && w2.component_index == w1.component_index
                    && w2.current_arch_id == w1.current_arch_id && w2.current_entity_id == w1.current_entity_id
                    && w2.archetypes@ == w1.archetypes@.insert(w1.entity_index@[e].archetype_id.0, w2.archetypes@[w1.entity_index@[e].archetype_id.0])
                    && w2.archetypes@[w1.entity_index@[e].archetype_id.0].wf()
                    && w1.archetypes@[w1.entity_index@[e].archetype_id.0].same_meta(&w2.archetypes@[w1.entity_index@[e].archetype_id.0])
                    && w1.archetypes@[w1.entity_index@[e].archetype_id.0].other_rows_kept(
                        &w2.archetypes@[w1.entity_index@[e].archetype_id.0], w1.entity_index@[e].row as int)
                ==> w2.wf() && w2@ == w1@.insert(EntityId(e), w2.archetypes@[w1.entity_index@[e].archetype_id.0].row_map(w1.entity_index@[e].row as int))
                    && forall|k: nat| w1.has_room(k) ==> #[trigger] w2.has_room(k),
    {
        let a = w1.entity_index@[e].archetype_id.0;
        let row = w1.entity_index@[e].row as int;
        assert forall|w2: Self|
            #![trigger w2.wf()]
            #![trigger w2.view()]
            w2.entity_index == w1.entity_index && w2.resources == w1.resources
                && w2.archetype_index == w1.archetype_index && w2.component_index == w1.component_index
                && w2.current_arch_id == w1.current_arch_id && w2.current_entity_id == w1.current_entity_id
                && w2.archetypes@ == w1.archetypes@.insert(a, w2.archetypes@[a])
                && w2.archetypes@[a].wf()
                && w1.archetypes@[a].same_meta(&w2.archetypes@[a])
                && w1.archetypes@[a].other_rows_kept(&w2.archetypes@[a], row)
            implies w2.wf() && w2@ == w1@.insert(EntityId(e), w2.archetypes@[a].row_map(row))
                && forall|k: nat| w1.has_room(k) ==> #[trigger] w2.has_room(k) by {
            let aa1 = w1.archetypes@[a];
            let aa2 = w2.archetypes@[a];
            assert forall|x: u32| #[trigger] w1.archetypes@.contains_key(x) implies w2.archetypes@[x].wf()
                && Self::same_shape(w1.archetypes@[x], w2.archetypes@[x]) by {}
            assert(w2.archetypes@.dom() =~= w1.archetypes@.dom());
            Self::lemma_tables_frame(w1, w2);
            assert forall|f: u32| #[trigger] w2.entity_index@.contains_key(f) implies f < w2.current_entity_id.0
                && w2.archetypes@.contains_key(w2.entity_index@[f].archetype_id.0)
                && w2.archetypes@[w2.entity_index@[f].archetype_id.0].is_live(w2.entity_index@[f].row as int)
                && (f != e ==> w2.components_of(f) == w1.components_of(f)) by {
                let info = w1.entity_index@[f];
                if info.archetype_id.0 == a {
                    if f != e {
                        assert(info != w1.entity_index@[e]);
                        assert(aa1.is_live(info.row as int));
                    } else {
                        assert(aa1.is_live(row));
                    }
                }
            }
            assert(w2@ =~= w1@.insert(EntityId(e), w2.archetypes@[a].row_map(row)));
            assert forall|k: nat| w1.has_room(k) implies #[trigger] w2.has_room(k) by {
                Self::lemma_room(w1, w2, k, 0);
            }
        }
    }

    /// Mutable access to the component of type `component_id` of `entity`.
    pub fn get_component_mut(&mut self, entity: EntityId, component_id: TypeKey) -> (r: Result<&mut V, ECSError>)
        requires
            old(self).wf(),
        ensures
            final(self).wf(),
            final(self).resource_map() == old(self).resource_map(),
            final(self).next_entity_id() == old(self).next_entity_id(),
            final(self).next_archetype_id() == old(self).next_archetype_id(),
            forall|k: nat| old(self).has_room(k) ==> #[trigger] final(self).has_room(k),
            !old(self)@.contains_key(entity) ==> r == Err::<&mut V, ECSError>(ECSError::InvalidEntityId(entity))
                && final(self)@ == old(self)@,
            old(self)@.contains_key(entity) && !old(self)@[entity].contains_key(component_id) ==> r
                == Err::<&mut V, ECSError>(
                ECSError::ComponentAbscentFromArchetype(component_id, old(self).location(entity).archetype_id),
            ),
            r is Err ==> final(self)@ == old(self)@,
            old(self)@.contains_key(entity) && old(self)@[entity].contains_key(component_id) ==> r is Ok,
            r matches Ok(v) ==> old(self)@.contains_key(entity) && old(self)@[entity].contains_key(component_id)
                && *v == old(self)@[entity][component_id]
                && final(self)@ == old(self)@.insert(entity, old(self)@[entity].insert(component_id, *final(v))),
    {
        let ghost w1 = *self;
        let entity_info = match self.entity_index.get(&entity.0) {
            Some(info) => *info,
            None => {
                return Err(ECSError::InvalidEntityId(entity));
            },
        };
        proof {
            Self::lemma_row_update(w1, entity.0);
            assert(w1@[entity] == w1.archetypes@[entity_info.archetype_id.0].row_map(entity_info.row as int));
            assert(w1@.insert(entity, w1@[entity]) =~= w1@);
        }
        let archetype = match get_mut(&mut self.archetypes, entity_info.archetype_id.0) {
            Some(archetype) => archetype,
            None => {
                return Err(ECSError::ArchetypeNotFound(entity_info.archetype_id));
            },
        };
        archetype.get_component_mut(entity_info.row, component_id)
    }
}

impl<V> Default for World<V> {
    /// An empty world, as [`World::new`] makes.
    fn default() -> (w: Self)
        ensures
            w.wf(),
            w@ == Map::<EntityId, Map<TypeKey, V>>::empty(),
            w.resource_map() == Map::<TypeKey, V>::empty(),
            w.next_entity_id() == 0,
            w.next_archetype_id() == 0,
            forall|k: nat| k + 1 < u32::MAX ==> #[trigger] w.has_room(k),
    {
        World::new()
    }
}

} // verus!
