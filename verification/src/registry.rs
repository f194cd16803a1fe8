//! A registry of entities, one map per value type, plus resources (at most
//! one per type) and labels on entities.
use vstd::prelude::*;
use std::collections::HashMap;
use crate::label_index::{labels_fresh, labels_owned, unlabel_map, EntityId, LabelIndex};
use crate::laws::{
    law_spawn_keeps_labels_fresh, law_spawn_keeps_labels_owned, law_unlabel_keeps_labels_fresh,
    law_unlabel_keeps_labels_owned,
};
use crate::maps::get_mut;
use crate::types::TypeKey;

verus! {

broadcast use vstd::std_specs::hash::group_hash_axioms;

/// Hands out entity identifiers in increasing order.
pub struct EntityIdAllocator(pub u64);

impl EntityIdAllocator {
    /// Returns the next identifier and advances past it.
    pub fn next(&mut self) -> (id: EntityId)
        requires
            old(self).0 < u64::MAX,
        ensures
            id == EntityId(old(self).0),
            final(self).0 == old(self).0 + 1,
    {
        let id = EntityId(self.0);
        self.0 = self.0 + 1;
        id
    }
}

impl Default for EntityIdAllocator {
    fn default() -> (a: Self)
        ensures
            a.0 == 0,
    {
        EntityIdAllocator(0)
    }
}

/// The values of the entities of `ids`, in that order, skipping those absent from `m`.
pub open spec fn present_values<V>(ids: Seq<EntityId>, m: Map<u64, V>) -> Seq<V>
    decreases ids.len(),
{
    if ids.len() == 0 {
        Seq::empty()
    } else if m.contains_key(ids.last().0) {
        present_values(ids.drop_last(), m).push(m[ids.last().0])
    } else {
        present_values(ids.drop_last(), m)
    }
}

/// The label table of `labels` once entity `id` is taken off its label:
/// a label left with no entity disappears.
pub open spec fn unlabelled(labels: LabelIndex, id: EntityId) -> Map<(TypeKey, Seq<char>), Seq<EntityId>> {
    unlabel_map(labels.label_map(), labels.owner_map(), id)
}

/// Entities (one map from entity to value per value type), resources (at
/// most one per type), and labels on entities.
pub struct ResourceRegistry<V> {
    stores: HashMap<TypeKey, HashMap<u64, V>>,
    resources: HashMap<TypeKey, V>,
    ids: EntityIdAllocator,
    labels: LabelIndex,
}

impl<V> ResourceRegistry<V> {
    /// The entities of each value type, with their values.
    pub closed spec fn store_map(&self) -> Map<TypeKey, Map<u64, V>> {
        Map::new(|t: TypeKey| self.stores@.contains_key(t), |t: TypeKey| self.stores@[t]@)
    }

    /// The resources, by type.
    pub closed spec fn resource_map(&self) -> Map<TypeKey, V> {
        self.resources@
    }

    /// The identifier the next spawned entity receives.
    pub closed spec fn next_id(&self) -> u64 {
        self.ids.0
    }

    /// The labels.
    pub closed spec fn label_index(&self) -> LabelIndex {
        self.labels
    }

    /// No label lists an entity twice, every labelled entity has an
    /// identifier that was handed out already, and every listed entity is
    /// listed under its recorded label only. Every operation keeps this.
    pub open spec fn labels_unique(&self) -> bool {
        &&& labels_fresh(self.label_index().label_map(), self.next_id())
        &&& labels_owned(self.label_index().label_map(), self.label_index().owner_map())
    }

    /// An empty registry.
    pub fn new() -> (r: Self)
        ensures
            r.store_map() == Map::<TypeKey, Map<u64, V>>::empty(),
            r.resource_map() == Map::<TypeKey, V>::empty(),
            r.next_id() == 0,
            r.label_index().label_map() == Map::<(TypeKey, Seq<char>), Seq<EntityId>>::empty(),
            r.label_index().owner_map() == Map::<u64, (TypeKey, Seq<char>)>::empty(),
            r.labels_unique(),
    {
        let r = ResourceRegistry {
            stores: HashMap::new(),
            resources: HashMap::new(),
            ids: EntityIdAllocator(0),
            labels: LabelIndex::new(),
        };
        assert(r.store_map() =~= Map::<TypeKey, Map<u64, V>>::empty());
        r
    }

    // region: entities

    /// Adds an entity whose value `value` has type `type_id`, labelled with
    /// `label` if given, and returns its identifier.
    pub fn spawn(&mut self, type_id: TypeKey, label: Option<&str>, value: V) -> (id: EntityId)
        requires
            old(self).next_id() < u64::MAX,
        ensures
            id == EntityId(old(self).next_id()),
            final(self).next_id() == old(self).next_id() + 1,
            final(self).store_map() == old(self).store_map().insert(
                type_id,
                (if old(self).store_map().contains_key(type_id) {
                    old(self).store_map()[type_id]
                } else {
                    Map::<u64, V>::empty()
                }).insert(id.0, value),
            ),
            final(self).resource_map() == old(self).resource_map(),
            match label {
                Some(l) => final(self).label_index().label_map() == old(self).label_index().label_map().insert(
                    (type_id, l@),
                    (if old(self).label_index().label_map().contains_key((type_id, l@)) {
                        old(self).label_index().label_map()[(type_id, l@)]
                    } else {
                        Seq::<EntityId>::empty()
                    }).push(id),
                ) && final(self).label_index().owner_map() == old(self).label_index().owner_map().insert(
                    id.0,
                    (type_id, l@),
                ),
                None => final(self).label_index() == old(self).label_index(),
            },
            old(self).labels_unique() ==> final(self).labels_unique(),
    {
        let ghost old_self = *self;
        let id = self.ids.next();
        let store = self.stores.entry(type_id).or_insert(HashMap::new());
        store.insert(id.0, value);
        proof {
            assert(self.store_map() =~= old_self.store_map().insert(
                type_id,
                (if old_self.store_map().contains_key(type_id) {
                    old_self.store_map()[type_id]
                } else {
                    Map::<u64, V>::empty()
                }).insert(id.0, value),
            ));
        }
        if let Some(label) = label {
            self.labels.insert(type_id, label, id);
            proof {
                if old_self.labels_unique() {
                    law_spawn_keeps_labels_fresh(old_self.label_index().label_map(), old_self.next_id(), (type_id, label@));
                    law_spawn_keeps_labels_owned(
                        old_self.label_index().label_map(),
                        old_self.label_index().owner_map(),
                        old_self.next_id(),
                        (type_id, label@),
                    );
                }
            }
        } else {
            proof {
                let lm = self.label_index().label_map();
                if old_self.labels_unique() {
                    assert forall|k: (TypeKey, Seq<char>)| #[trigger] lm.contains_key(k) implies
                        forall|i: int| 0 <= i < lm[k].len() ==> (#[trigger] lm[k][i]).0 < self.next_id() by {
                        assert forall|i: int| 0 <= i < lm[k].len() implies (#[trigger] lm[k][i]).0 < self.next_id() by {
                            assert(lm[k][i].0 < old_self.next_id());
                        }
                    }
                }
            }
        }
        id
    }

    /// The value of entity `id` of value type `type_id`, if any.
    pub fn get(&self, type_id: TypeKey, id: EntityId) -> (r: Option<&V>)
        ensures
            match r {
                Some(v) => self.store_map().contains_key(type_id) && self.store_map()[type_id].contains_key(id.0)
                    && *v == self.store_map()[type_id][id.0],
                None => !(self.store_map().contains_key(type_id) && self.store_map()[type_id].contains_key(id.0)),
            },
    {
        match self.stores.get(&type_id) {
            Some(store) => store.get(&id.0),
            None => None,
        }
    }

    /// Mutable access to the value of entity `id` of value type `type_id`, if any.
    pub fn get_mut(&mut self, type_id: TypeKey, id: EntityId) -> (r: Option<&mut V>)
        ensures
            final(self).resource_map() == old(self).resource_map(),
            final(self).next_id() == old(self).next_id(),
            final(self).label_index() == old(self).label_index(),
            match r {
                Some(v) => old(self).store_map().contains_key(type_id) && old(self).store_map()[type_id].contains_key(id.0)
                    && *v == old(self).store_map()[type_id][id.0]
                    && final(self).store_map() == old(self).store_map().insert(
                        type_id,
                        old(self).store_map()[type_id].insert(id.0, *final(v)),
                    ),
                None => !(old(self).store_map().contains_key(type_id) && old(self).store_map()[type_id].contains_key(id.0))
                    && final(self).store_map() == old(self).store_map(),
            },
    {
        proof {
            let o = *self;
            assert forall|r: Self|
                #![trigger r.store_map()]
                r.stores@ == o.stores@.insert(type_id, r.stores@[type_id]) && o.stores@.contains_key(type_id)
                implies r.store_map() == o.store_map().insert(type_id, r.stores@[type_id]@) by {
                assert(r.store_map() =~= o.store_map().insert(type_id, r.stores@[type_id]@));
            }
            assert forall|r: Self|
                #![trigger r.store_map()]
                r.stores@ == o.stores@
                implies r.store_map() == o.store_map() by {
                assert(r.store_map() =~= o.store_map());
            }
        }
        let store = match get_mut(&mut self.stores, type_id) {
            Some(store) => store,
            None => {
                return None;
            },
        };
        get_mut(store, id.0)
    }

    /// The values of the entities of value type `type_id` labelled `label`,
    /// in labelling order.
    pub fn get_by_label(&self, type_id: TypeKey, label: &str) -> (r: Vec<&V>)
        ensures
            r@.map_values(|x: &V| *x) == (if self.store_map().contains_key(type_id) {
                present_values(
                    if self.label_index().label_map().contains_key((type_id, label@)) {
                        self.label_index().label_map()[(type_id, label@)]
                    } else {
                        Seq::<EntityId>::empty()
                    },
                    self.store_map()[type_id],
                )
            } else {
                Seq::<V>::empty()
            }),
    {
        let ids = self.labels.get(type_id, label);
        let mut out: Vec<&V> = Vec::new();
        let map = match self.stores.get(&type_id) {
            Some(map) => map,
            None => {
                assert(out@.map_values(|x: &V| *x) =~= Seq::<V>::empty());
                return out;
            },
        };
        let mut i: usize = 0;
        while i < ids.len()
            invariant
                i <= ids@.len(),
                out@.map_values(|x: &V| *x) == present_values(ids@.subrange(0, i as int), map@),
            decreases ids@.len() - i,
        {
            assert(ids@.subrange(0, i + 1).drop_last() =~= ids@.subrange(0, i as int));
            match map.get(&ids[i].0) {
                Some(v) => {
                    out.push(v);
                    assert(out@.map_values(|x: &V| *x) =~= present_values(ids@.subrange(0, i as int), map@).push(*v));
                },
                None => {},
            }
            i = i + 1;
        }
        assert(ids@.subrange(0, ids@.len() as int) =~= ids@);
        out
    }

    /// Removes entity `id` of value type `type_id` and returns its value; its
    /// label is taken off. Gives `None`, changing nothing, when there is no
    /// such entity.
    pub fn despawn(&mut self, type_id: TypeKey, id: EntityId) -> (r: Option<V>)
        ensures
            final(self).resource_map() == old(self).resource_map(),
            final(self).next_id() == old(self).next_id(),
            (old(self).store_map().contains_key(type_id) && old(self).store_map()[type_id].contains_key(id.0))
                <==> r is Some,
            r matches Some(v) ==> v == old(self).store_map()[type_id][id.0]
                && final(self).store_map() == old(self).store_map().insert(type_id, old(self).store_map()[type_id].remove(id.0))
                && final(self).label_index().owner_map() == old(self).label_index().owner_map().remove(id.0)
                && final(self).label_index().label_map() == unlabelled(old(self).label_index(), id),
            r is None ==> final(self).store_map() == old(self).store_map() && final(self).label_index() == old(self).label_index(),
            old(self).labels_unique() ==> final(self).labels_unique(),
            old(self).labels_unique() && r is Some ==> forall|k: (TypeKey, Seq<char>)|
                #[trigger] final(self).label_index().label_map().contains_key(k)
                ==> !final(self).label_index().label_map()[k].contains(id),
    {
        let ghost o = *self;
        let store = match get_mut(&mut self.stores, type_id) {
            Some(store) => store,
            None => {
                assert(self.store_map() =~= o.store_map());
                return None;
            },
        };
        let removed = store.remove(&id.0);
        let value = match removed {
            Some(value) => value,
            None => {
                assert(self.stores@[type_id]@ =~= o.stores@[type_id]@);
                assert(self.store_map() =~= o.store_map());
                return None;
            },
        };
        proof {
            assert(self.store_map() =~= o.store_map().insert(type_id, o.store_map()[type_id].remove(id.0)));
        }
        self.labels.remove(id);
        proof {
            let l = o.label_index();
            if o.labels_unique() && l.owner_map().contains_key(id.0) && l.label_map().contains_key(l.owner_map()[id.0]) {
                law_unlabel_keeps_labels_fresh(l.label_map(), o.next_id(), l.owner_map()[id.0], id);
            }
            if o.labels_unique() {
                law_unlabel_keeps_labels_owned(l.label_map(), l.owner_map(), id);
            }
        }
        Some(value)
    }

    /// Takes out the whole map of the entities of value type `type_id`.
    pub(crate) fn remove_map(&mut self, type_id: TypeKey) -> (r: Option<HashMap<u64, V>>)
        ensures
            final(self).resource_map() == old(self).resource_map(),
            final(self).next_id() == old(self).next_id(),
            final(self).label_index() == old(self).label_index(),
            match r {
                Some(m) => old(self).store_map().contains_key(type_id) && m@ == old(self).store_map()[type_id]
                    && final(self).store_map() == old(self).store_map().remove(type_id),
                None => !old(self).store_map().contains_key(type_id) && final(self).store_map() == old(self).store_map(),
            },
    {
        let ghost o = *self;
        let r = self.stores.remove(&type_id);
        assert(self.store_map() =~= (if r is Some { o.store_map().remove(type_id) } else { o.store_map() }));
        r
    }

    /// Puts in `map` as the map of the entities of value type `type_id`,
    /// replacing any previous one.
    pub(crate) fn insert_map(&mut self, type_id: TypeKey, map: HashMap<u64, V>)
        ensures
            final(self).resource_map() == old(self).resource_map(),
            final(self).next_id() == old(self).next_id(),
            final(self).label_index() == old(self).label_index(),
            final(self).store_map() == old(self).store_map().insert(type_id, map@),
    {
        let ghost o = *self;
        self.stores.insert(type_id, map);
        assert(self.store_map() =~= o.store_map().insert(type_id, map@));
    }

    // endregion
    // region: resources

    /// Inserts the resource of type `type_id` unless one is present already,
    /// in which case `value` is dropped and the present one kept.
    pub fn insert_res(&mut self, type_id: TypeKey, value: V)
        ensures
            final(self).resource_map() == (if old(self).resource_map().contains_key(type_id) {
                old(self).resource_map()
            } else {
                old(self).resource_map().insert(type_id, value)
            }),
            final(self).store_map() == old(self).store_map(),
            final(self).next_id() == old(self).next_id(),
            final(self).label_index() == old(self).label_index(),
    {
        let ghost o = *self;
        self.resources.entry(type_id).or_insert(value);
        proof {
            if o.resources@.contains_key(type_id) {
                assert(self.resources@ =~= o.resources@);
            }
            assert(self.store_map() =~= o.store_map());
        }
    }

    /// The resource of type `type_id`, if present.
    pub fn get_res(&self, type_id: TypeKey) -> (r: Option<&V>)
        ensures
            match r {
                Some(v) => self.resource_map().contains_key(type_id) && *v == self.resource_map()[type_id],
                None => !self.resource_map().contains_key(type_id),
            },
    {
        self.resources.get(&type_id)
    }

    /// Mutable access to the resource of type `type_id`, if present.
    pub fn get_res_mut(&mut self, type_id: TypeKey) -> (r: Option<&mut V>)
        ensures
            final(self).store_map() == old(self).store_map(),
            final(self).next_id() == old(self).next_id(),
            final(self).label_index() == old(self).label_index(),
            match r {
                Some(v) => old(self).resource_map().contains_key(type_id) && *v == old(self).resource_map()[type_id]
                    && final(self).resource_map() == old(self).resource_map().insert(type_id, *final(v)),
                None => !old(self).resource_map().contains_key(type_id) && final(self).resource_map()
                    == old(self).resource_map(),
            },
    {
        proof {
            let o = *self;
            assert forall|r: Self|
                #![trigger r.store_map()]
                r.stores == o.stores
                implies r.store_map() == o.store_map() by {
                assert(r.store_map() =~= o.store_map());
            }
        }
        get_mut(&mut self.resources, type_id)
    }

    /// Takes out the resource of type `type_id`, if present.
    pub fn remove_res(&mut self, type_id: TypeKey) -> (r: Option<V>)
        ensures
            final(self).store_map() == old(self).store_map(),
            final(self).next_id() == old(self).next_id(),
            final(self).label_index() == old(self).label_index(),
            match r {
                Some(v) => old(self).resource_map().contains_key(type_id) && v == old(self).resource_map()[type_id]
                    && final(self).resource_map() == old(self).resource_map().remove(type_id),
                None => !old(self).resource_map().contains_key(type_id) && final(self).resource_map()
                    == old(self).resource_map(),
            },
    {
        let ghost o = *self;
        let r = self.resources.remove(&type_id);
        proof {
            assert(self.store_map() =~= o.store_map());
            if r is None {
                assert(self.resources@ =~= o.resources@);
            }
        }
        r
    }

    // endregion

    /// Takes out the resources of `fetch`, lends them as a slice with the
    /// registry to `f`, and puts back the values `f` left in the slice; a
    /// type that `f` filled meanwhile keeps what `f` put there. Gives `None`, without calling `f`, when a resource is
    /// missing; the resources taken before the missing one are then lost.
    pub fn with_res_mut<R, F: FnOnce(&mut [V], &mut Self) -> R>(&mut self, fetch: &FetchRes, f: F) -> (r: Option<R>)
        requires
            forall|a: &mut [V], b: &mut Self| call_requires(f, (a, b)),
            forall|a: &mut [V], b: &mut Self, x: R| call_ensures(f, (a, b), x) ==> final(a)@.len() == a@.len(),
        ensures
            all_fetchable(old(self).resource_map(), fetch.keys()) <==> r is Some,
            r is None ==> final(self).store_map() == old(self).store_map()
                && final(self).next_id() == old(self).next_id()
                && final(self).label_index() == old(self).label_index()
                && forall|j: int| #[trigger] first_missing(old(self).resource_map(), fetch.keys(), j)
                    ==> final(self).resource_map() == old(self).resource_map().remove_keys(fetch.keys().subrange(0, j).to_set()),
            r matches Some(x) ==> exists|a: &mut [V], b: &mut Self| {
                &&& call_ensures(f, (a, b), x)
                &&& a@.len() == fetch.keys().len()
                &&& forall|j: int| 0 <= j < a@.len() ==> #[trigger] a@[j] == old(self).resource_map()[fetch.keys()[j]]
                &&& b.resource_map() == old(self).resource_map().remove_keys(fetch.keys().to_set())
                &&& b.store_map() == old(self).store_map()
                &&& b.next_id() == old(self).next_id()
                &&& b.label_index() == old(self).label_index()
                &&& final(self).resource_map() == put_back_res(
                    final(b).resource_map(),
                    fetch.keys(),
                    final(a)@,
                    fetch.keys().len(),
                )
                &&& final(self).store_map() == final(b).store_map()
                &&& final(self).next_id() == final(b).next_id()
                &&& final(self).label_index() == final(b).label_index()
            },
            r is Some ==> all_present(final(self).resource_map(), fetch.keys()),
    {
        let mut tup = fetch.take(self)?;
        let result = f(tup.as_mut_slice(), self);
        let ghost mid = *self;
        fetch.put_back(tup, self);
        proof {
            lemma_put_back_res_present(mid.resource_map(), fetch.keys(), tup@, fetch.keys().len());
        }
        let r = Some(result);
        assert(r matches Some(x) && x == result);
        r
    }

    /// Takes out the entity maps of `fetch`, lends them as a slice with the
    /// registry to `f`, and puts back the maps as `f` left them (replacing any
    /// map `f` put in meanwhile).
    /// Gives `None`, without calling `f`, when a map is missing; the maps
    /// taken before the missing one are then lost.
    pub fn with_maps_mut<R, F: FnOnce(&mut [HashMap<u64, V>], &mut Self) -> R>(&mut self, fetch: &FetchEntity, f: F) -> (r: Option<R>)
        requires
            forall|a: &mut [HashMap<u64, V>], b: &mut Self| call_requires(f, (a, b)),
            forall|a: &mut [HashMap<u64, V>], b: &mut Self, x: R| call_ensures(f, (a, b), x) ==> final(a)@.len() == a@.len(),
        ensures
            all_fetchable(old(self).store_map(), fetch.keys()) <==> r is Some,
            r is None ==> final(self).resource_map() == old(self).resource_map()
                && final(self).next_id() == old(self).next_id()
                && final(self).label_index() == old(self).label_index()
                && forall|j: int| #[trigger] first_missing(old(self).store_map(), fetch.keys(), j)
                    ==> final(self).store_map() == old(self).store_map().remove_keys(fetch.keys().subrange(0, j).to_set()),
            r matches Some(x) ==> exists|a: &mut [HashMap<u64, V>], b: &mut Self| {
                &&& call_ensures(f, (a, b), x)
                &&& a@.len() == fetch.keys().len()
                &&& forall|j: int| 0 <= j < a@.len() ==> (#[trigger] a@[j])@ == old(self).store_map()[fetch.keys()[j]]
                &&& b.store_map() == old(self).store_map().remove_keys(fetch.keys().to_set())
                &&& b.resource_map() == old(self).resource_map()
                &&& b.next_id() == old(self).next_id()
                &&& b.label_index() == old(self).label_index()
                &&& final(self).store_map() == put_back_maps(
                    final(b).store_map(),
                    fetch.keys(),
                    map_views(final(a)@),
                    fetch.keys().len(),
                )
                &&& forall|j: int| 0 <= j < fetch.keys().len() ==> #[trigger] final(self).store_map()[fetch.keys()[j]] == final(a)@[j]@
                &&& final(self).resource_map() == final(b).resource_map()
                &&& final(self).next_id() == final(b).next_id()
                &&& final(self).label_index() == final(b).label_index()
            },
            r is Some ==> all_present(final(self).store_map(), fetch.keys()),
    {
        let mut maps = fetch.take(self)?;
        let result = f(maps.as_mut_slice(), self);
        let ghost mid = *self;
        fetch.put_back(maps, self);
        proof {
            lemma_fetchable_distinct(old(self).store_map(), fetch.keys());
            lemma_put_back_maps_at(
                mid.store_map(),
                fetch.keys(),
                map_views(maps@),
                fetch.keys().len(),
            );
        }
        let r = Some(result);
        assert(r matches Some(x) && x == result);
        r
    }
}

/// Key `keys[j]` cannot be taken from `m` after `keys[..j]` were: it is
/// absent, or it was taken already.
pub open spec fn missing_at<X>(m: Map<TypeKey, X>, keys: Seq<TypeKey>, j: int) -> bool {
    !m.contains_key(keys[j]) || keys.subrange(0, j).contains(keys[j])
}

/// Every key of `keys` can be taken from `m`, in order.
pub open spec fn all_fetchable<X>(m: Map<TypeKey, X>, keys: Seq<TypeKey>) -> bool {
    forall|j: int| 0 <= j < keys.len() ==> !#[trigger] missing_at(m, keys, j)
}

/// `keys[j]` is the first key that cannot be taken from `m`.
pub open spec fn first_missing<X>(m: Map<TypeKey, X>, keys: Seq<TypeKey>, j: int) -> bool {
    &&& 0 <= j < keys.len()
    &&& missing_at(m, keys, j)
    &&& forall|k: int| 0 <= k < j ==> !#[trigger] missing_at(m, keys, k)
}

/// `m` after inserting the first `n` pairs of (`keys`, `vals`) in order,
/// each only if its key is absent.
pub open spec fn put_back_res<V>(m: Map<TypeKey, V>, keys: Seq<TypeKey>, vals: Seq<V>, n: nat) -> Map<TypeKey, V>
    decreases n,
{
    if n == 0 {
        m
    } else {
        let m1 = put_back_res(m, keys, vals, (n - 1) as nat);
        if m1.contains_key(keys[n - 1]) {
            m1
        } else {
            m1.insert(keys[n - 1], vals[n - 1])
        }
    }
}

/// `m` after inserting the first `n` pairs of (`keys`, `maps`) in order,
/// each replacing any present value.
pub open spec fn put_back_maps<V>(m: Map<TypeKey, Map<u64, V>>, keys: Seq<TypeKey>, maps: Seq<Map<u64, V>>, n: nat) -> Map<TypeKey, Map<u64, V>>
    decreases n,
{
    if n == 0 {
        m
    } else {
        put_back_maps(m, keys, maps, (n - 1) as nat).insert(keys[n - 1], maps[n - 1])
    }
}

proof fn lemma_prefix_set(keys: Seq<TypeKey>, i: int)
    requires
        0 <= i < keys.len(),
    ensures
        keys.subrange(0, i + 1).to_set() == keys.subrange(0, i).to_set().insert(keys[i]),
        forall|x: TypeKey| keys.subrange(0, i).to_set().contains(x) <==> keys.subrange(0, i).contains(x),
{
    let a = keys.subrange(0, i + 1);
    let b = keys.subrange(0, i);
    assert forall|x: TypeKey| a.to_set().contains(x) <==> b.to_set().insert(keys[i]).contains(x) by {
        if a.contains(x) {
            let w = choose|w: int| 0 <= w < a.len() && a[w] == x;
            if w < i {
                assert(b[w] == x);
            }
        }
        if b.contains(x) {
            let w = choose|w: int| 0 <= w < b.len() && b[w] == x;
            assert(a[w] == x);
        }
        if x == keys[i] {
            assert(a[i] == x);
        }
    }
    assert(a.to_set() =~= b.to_set().insert(keys[i]));
}

/// In a list of keys that can all be taken, no key comes twice, and every
/// key is present.
pub proof fn lemma_fetchable_distinct<X>(m: Map<TypeKey, X>, keys: Seq<TypeKey>)
    requires
        all_fetchable(m, keys),
    ensures
        forall|i: int, j: int| 0 <= i < j < keys.len() ==> keys[i] != keys[j],
        forall|j: int| 0 <= j < keys.len() ==> m.contains_key(keys[j]),
{
    assert forall|i: int, j: int| 0 <= i < j < keys.len() implies keys[i] != keys[j] by {
        assert(!missing_at(m, keys, j));
        assert(keys.subrange(0, j)[i] == keys[i]);
    }
    assert forall|j: int| 0 <= j < keys.len() implies m.contains_key(keys[j]) by {
        assert(!missing_at(m, keys, j));
    }
}

/// The contents of each map of `s`.
pub open spec fn map_views<V>(s: Seq<HashMap<u64, V>>) -> Seq<Map<u64, V>> {
    s.map_values(|h: HashMap<u64, V>| h@)
}

/// Every key of `keys` is present in `m`.
pub open spec fn all_present<X>(m: Map<TypeKey, X>, keys: Seq<TypeKey>) -> bool {
    forall|j: int| 0 <= j < keys.len() ==> #[trigger] m.contains_key(keys[j])
}

/// Putting back resources keeps every present type and makes the first `n`
/// keys present.
pub proof fn lemma_put_back_res_present<V>(m: Map<TypeKey, V>, keys: Seq<TypeKey>, vals: Seq<V>, n: nat)
    requires
        n <= keys.len(),
        n <= vals.len(),
    ensures
        forall|j: int| 0 <= j < n ==> #[trigger] put_back_res(m, keys, vals, n).contains_key(keys[j]),
        forall|k: TypeKey| #[trigger] m.contains_key(k) ==> put_back_res(m, keys, vals, n).contains_key(k),
    decreases n,
{
    if n > 0 {
        lemma_put_back_res_present(m, keys, vals, (n - 1) as nat);
        let prev = put_back_res(m, keys, vals, (n - 1) as nat);
        let cur = put_back_res(m, keys, vals, n);
        assert(cur == (if prev.contains_key(keys[n - 1]) { prev } else { prev.insert(keys[n - 1], vals[n - 1]) }));
        assert forall|j: int| 0 <= j < n implies #[trigger] cur.contains_key(keys[j]) by {
            if j < n - 1 {
                assert(prev.contains_key(keys[j]));
            }
        }
        assert forall|k: TypeKey| #[trigger] m.contains_key(k) implies cur.contains_key(k) by {
            assert(prev.contains_key(k));
        }
    }
}

/// With keys that do not repeat, putting back maps leaves the `j`-th key
/// holding the `j`-th map.
pub proof fn lemma_put_back_maps_at<V>(m: Map<TypeKey, Map<u64, V>>, keys: Seq<TypeKey>, maps: Seq<Map<u64, V>>, n: nat)
    requires
        n <= keys.len(),
        n <= maps.len(),
        forall|i: int, j: int| 0 <= i < j < keys.len() ==> keys[i] != keys[j],
    ensures
        forall|j: int| 0 <= j < n ==> #[trigger] put_back_maps(m, keys, maps, n).contains_key(keys[j])
            && put_back_maps(m, keys, maps, n)[keys[j]] == maps[j],
    decreases n,
{
    if n > 0 {
        lemma_put_back_maps_at(m, keys, maps, (n - 1) as nat);
        let prev = put_back_maps(m, keys, maps, (n - 1) as nat);
        let cur = put_back_maps(m, keys, maps, n);
        assert(cur == prev.insert(keys[n - 1], maps[n - 1]));
        assert forall|j: int| 0 <= j < n implies #[trigger] cur.contains_key(keys[j]) && cur[keys[j]] == maps[j] by {
            if j < n - 1 {
                assert(0 <= j < (n - 1) as nat);
                assert(put_back_maps(m, keys, maps, (n - 1) as nat).contains_key(keys[j]));
                assert(keys[j] != keys[n - 1]);
            }
        }
    }
}

/// A list of resource types to take out of a registry together.
pub struct FetchRes {
    keys: Vec<TypeKey>,
}

impl FetchRes {
    /// The resource types, in order.
    pub closed spec fn keys(&self) -> Seq<TypeKey> {
        self.keys@
    }

    /// Fetches the resource types `keys`, in that order.
    pub fn new(keys: Vec<TypeKey>) -> (f: Self)
        ensures
            f.keys() == keys@,
    {
        FetchRes { keys }
    }

    /// Takes the resources out of `registry`, in order. Stops at the first
    /// one missing and gives `None`; those taken before it are then lost.
    pub fn take<V>(&self, registry: &mut ResourceRegistry<V>) -> (r: Option<Vec<V>>)
        ensures
            final(registry).store_map() == old(registry).store_map(),
            final(registry).next_id() == old(registry).next_id(),
            final(registry).label_index() == old(registry).label_index(),
            all_fetchable(old(registry).resource_map(), self.keys()) <==> r is Some,
            r matches Some(v) ==> v@.len() == self.keys().len()
                && (forall|j: int| 0 <= j < v@.len() ==> #[trigger] v@[j] == old(registry).resource_map()[self.keys()[j]])
                && final(registry).resource_map() == old(registry).resource_map().remove_keys(self.keys().to_set()),
            r is None ==> forall|j: int| #[trigger] first_missing(old(registry).resource_map(), self.keys(), j)
                ==> final(registry).resource_map() == old(registry).resource_map().remove_keys(self.keys().subrange(0, j).to_set()),
    {
        let ghost m = registry.resource_map();
        let ghost keys = self.keys@;
        let mut out: Vec<V> = Vec::new();
        let mut i: usize = 0;
        assert(registry.resource_map() =~= m.remove_keys(keys.subrange(0, 0).to_set()));
        while i < self.keys.len()
            invariant
                keys == self.keys@,
                m == old(registry).resource_map(),
                i <= keys.len(),
                out@.len() == i,
                forall|j: int| 0 <= j < i ==> #[trigger] out@[j] == m[keys[j]],
                forall|j: int| 0 <= j < i ==> !#[trigger] missing_at(m, keys, j),
                registry.resource_map() == m.remove_keys(keys.subrange(0, i as int).to_set()),
                registry.store_map() == old(registry).store_map(),
                registry.next_id() == old(registry).next_id(),
                registry.label_index() == old(registry).label_index(),
            decreases keys.len() - i,
        {
            proof {
                lemma_prefix_set(keys, i as int);
            }
            match registry.remove_res(self.keys[i]) {
                Some(v) => {
                    out.push(v);
                    proof {
                        assert(!missing_at(m, keys, i as int));
                        assert(registry.resource_map() =~= m.remove_keys(keys.subrange(0, i + 1).to_set()));
                    }
                },
                None => {
                    proof {
                        assert(missing_at(m, keys, i as int));
                        assert forall|j: int| #[trigger] first_missing(m, keys, j) implies j == i by {
                            if j < i {
                            } else if j > i {
                                assert(!missing_at(m, keys, i as int));
                            }
                        }
                    }
                    return None;
                },
            }
            i = i + 1;
        }
        assert(keys.subrange(0, keys.len() as int) =~= keys);
        Some(out)
    }

    /// Puts `values` back into `registry`, pairing them in order with the
    /// resource types; a type already present keeps its resource.
    pub fn put_back<V>(&self, values: Vec<V>, registry: &mut ResourceRegistry<V>)
        ensures
            final(registry).store_map() == old(registry).store_map(),
            final(registry).next_id() == old(registry).next_id(),
            final(registry).label_index() == old(registry).label_index(),
            final(registry).resource_map() == put_back_res(
                old(registry).resource_map(),
                self.keys(),
                values@,
                if self.keys().len() < values@.len() { self.keys().len() } else { values@.len() },
            ),
    {
        let ghost m = registry.resource_map();
        let ghost vals = values@;
        let n = if self.keys.len() < values.len() { self.keys.len() } else { values.len() };
        let mut rest = values;
        let mut i: usize = 0;
        while i < n
            invariant
                m == old(registry).resource_map(),
                n <= self.keys@.len(),
                n <= vals.len(),
                i <= n,
                rest@ == vals.subrange(i as int, vals.len() as int),
                registry.resource_map() == put_back_res(m, self.keys@, vals, i as nat),
                registry.store_map() == old(registry).store_map(),
                registry.next_id() == old(registry).next_id(),
                registry.label_index() == old(registry).label_index(),
            decreases n - i,
        {
            let v = rest.remove(0);
            assert(v == vals[i as int]);
            registry.insert_res(self.keys[i], v);
            assert(rest@ =~= vals.subrange(i + 1, vals.len() as int));
            i = i + 1;
        }
    }
}

/// A list of value types whose entity maps are taken out of a registry together.
pub struct FetchEntity {
    keys: Vec<TypeKey>,
}

impl FetchEntity {
    /// The value types, in order.
    pub closed spec fn keys(&self) -> Seq<TypeKey> {
        self.keys@
    }

    /// Fetches the entity maps of value types `keys`, in that order.
    pub fn new(keys: Vec<TypeKey>) -> (f: Self)
        ensures
            f.keys() == keys@,
    {
        FetchEntity { keys }
    }

    /// Takes the entity maps out of `registry`, in order. Stops at the first
    /// one missing and gives `None`; those taken before it are then lost.
    pub fn take<V>(&self, registry: &mut ResourceRegistry<V>) -> (r: Option<Vec<HashMap<u64, V>>>)
        ensures
            final(registry).resource_map() == old(registry).resource_map(),
            final(registry).next_id() == old(registry).next_id(),
            final(registry).label_index() == old(registry).label_index(),
            all_fetchable(old(registry).store_map(), self.keys()) <==> r is Some,
            r matches Some(v) ==> v@.len() == self.keys().len()
                && (forall|j: int| 0 <= j < v@.len() ==> (#[trigger] v@[j])@ == old(registry).store_map()[self.keys()[j]])
                && final(registry).store_map() == old(registry).store_map().remove_keys(self.keys().to_set()),
            r is None ==> forall|j: int| #[trigger] first_missing(old(registry).store_map(), self.keys(), j)
                ==> final(registry).store_map() == old(registry).store_map().remove_keys(self.keys().subrange(0, j).to_set()),
    {
        let ghost m = registry.store_map();
        let ghost keys = self.keys@;
        let mut out: Vec<HashMap<u64, V>> = Vec::new();
        let mut i: usize = 0;
        assert(registry.store_map() =~= m.remove_keys(keys.subrange(0, 0).to_set()));
        while i < self.keys.len()
            invariant
                keys == self.keys@,
                m == old(registry).store_map(),
                i <= keys.len(),
                out@.len() == i,
                forall|j: int| 0 <= j < i ==> (#[trigger] out@[j])@ == m[keys[j]],
                forall|j: int| 0 <= j < i ==> !#[trigger] missing_at(m, keys, j),
                registry.store_map() == m.remove_keys(keys.subrange(0, i as int).to_set()),
                registry.resource_map() == old(registry).resource_map(),
                registry.next_id() == old(registry).next_id(),
                registry.label_index() == old(registry).label_index(),
            decreases keys.len() - i,
        {
            proof {
                lemma_prefix_set(keys, i as int);
            }
            match registry.remove_map(self.keys[i]) {
                Some(v) => {
                    out.push(v);
                    proof {
                        assert(!missing_at(m, keys, i as int));
                        assert(registry.store_map() =~= m.remove_keys(keys.subrange(0, i + 1).to_set()));
                    }
                },
                None => {
                    proof {
                        assert(missing_at(m, keys, i as int));
                        assert forall|j: int| #[trigger] first_missing(m, keys, j) implies j == i by {
                            if j < i {
                            } else if j > i {
                                assert(!missing_at(m, keys, i as int));
                            }
                        }
                    }
                    return None;
                },
            }
            i = i + 1;
        }
        assert(keys.subrange(0, keys.len() as int) =~= keys);
        Some(out)
    }

    /// Puts `maps` back into `registry`, pairing them in order with the value
    /// types; each replaces any map present for its type.
    pub fn put_back<V>(&self, maps: Vec<HashMap<u64, V>>, registry: &mut ResourceRegistry<V>)
        ensures
            final(registry).resource_map() == old(registry).resource_map(),
            final(registry).next_id() == old(registry).next_id(),
            final(registry).label_index() == old(registry).label_index(),
            final(registry).store_map() == put_back_maps(
                old(registry).store_map(),
                self.keys(),
                map_views(maps@),
                if self.keys().len() < maps@.len() { self.keys().len() } else { maps@.len() },
            ),
    {
        let ghost m = registry.store_map();
        let ghost hs = map_views(maps@);
        let ghost vals = maps@;
        let n = if self.keys.len() < maps.len() { self.keys.len() } else { maps.len() };
        let mut rest = maps;
        let mut i: usize = 0;
        while i < n
            invariant
                m == old(registry).store_map(),
                hs == map_views(vals),
                n <= self.keys@.len(),
                n <= vals.len(),
                i <= n,
                rest@ == vals.subrange(i as int, vals.len() as int),
                registry.store_map() == put_back_maps(m, self.keys@, hs, i as nat),
                registry.resource_map() == old(registry).resource_map(),
                registry.next_id() == old(registry).next_id(),
                registry.label_index() == old(registry).label_index(),
            decreases n - i,
        {
            let v = rest.remove(0);
            assert(v == vals[i as int]);
            registry.insert_map(self.keys[i], v);
            assert(rest@ =~= vals.subrange(i + 1, vals.len() as int));
            i = i + 1;
        }
    }
}

} // verus!
