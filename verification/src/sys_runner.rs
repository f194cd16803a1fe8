//! Runs systems: takes out of the registry what a system needs, lends it to
//! the system together with a plugin view of the registry, and puts it back.
use vstd::prelude::*;
use std::collections::HashMap;
use crate::registry::{
    all_fetchable, all_present, first_missing, lemma_fetchable_distinct, lemma_put_back_maps_at,
    lemma_put_back_res_present, map_views, put_back_maps, put_back_res, FetchEntity, FetchRes, ResourceRegistry,
};
use crate::registry_view::{PluginRegistryView, GLOBAL_STATE_KEY};

verus! {

/// Runs systems against one registry.
pub struct SysRunner<'a, V> {
    registry: &'a mut ResourceRegistry<V>,
}

impl<'a, V> SysRunner<'a, V> {
    /// The registry the systems run against, as it stands now.
    pub closed spec fn reg(&self) -> ResourceRegistry<V> {
        *self.registry
    }

    /// The borrow of the registry this runner holds; its final value is the
    /// registry as the runner leaves it.
    pub closed spec fn borrowed(&self) -> &'a mut ResourceRegistry<V> {
        self.registry
    }

    /// A runner over `registry`.
    pub fn new(registry: &'a mut ResourceRegistry<V>) -> (r: Self)
        ensures
            r.reg() == *old(registry),
            *final(registry) == *final(r.borrowed()),
    {
        SysRunner { registry }
    }

    /// The global-state resource.
    pub fn glb(&self) -> (r: &V)
        requires
            self.reg().resource_map().contains_key(GLOBAL_STATE_KEY),
        ensures
            *r == self.reg().resource_map()[GLOBAL_STATE_KEY],
    {
        self.registry.get_res(GLOBAL_STATE_KEY).unwrap()
    }

    /// Mutable access to the global-state resource.
    pub fn glb_mut(&mut self) -> (r: &mut V)
        requires
            old(self).reg().resource_map().contains_key(GLOBAL_STATE_KEY),
        ensures
            *r == old(self).reg().resource_map()[GLOBAL_STATE_KEY],
            final(self).reg().resource_map() == old(self).reg().resource_map().insert(GLOBAL_STATE_KEY, *final(r)),
            final(self).reg().store_map() == old(self).reg().store_map(),
            final(self).reg().next_id() == old(self).reg().next_id(),
            final(self).reg().label_index() == old(self).reg().label_index(),
    {
        self.registry.get_res_mut(GLOBAL_STATE_KEY).unwrap()
    }

    /// Runs `f` on the resources of `fetch`, taken out of the registry, lent
    /// as a slice and put back afterwards (a type that `f` filled meanwhile
    /// keeps what `f` put there). Gives `None`, without running `f`, when a
    /// resource is missing; the resources taken before the missing one are
    /// then lost.
    pub fn exec_res<R, F>(&mut self, fetch: &FetchRes, f: F) -> (r: Option<R>)
        where
            F: for<'b> FnOnce(&mut [V], PluginRegistryView<'b, V>) -> R,
        requires
            forall|a: &mut [V], b: PluginRegistryView<V>| call_requires(f, (a, b)),
            forall|a: &mut [V], b: PluginRegistryView<V>, x: R| call_ensures(f, (a, b), x) ==> final(a)@.len() == a@.len(),
        ensures
            all_fetchable(old(self).reg().resource_map(), fetch.keys()) <==> r is Some,
            r is None ==> final(self).reg().store_map() == old(self).reg().store_map()
                && final(self).reg().next_id() == old(self).reg().next_id()
                && final(self).reg().label_index() == old(self).reg().label_index()
                && forall|j: int| #[trigger] first_missing(old(self).reg().resource_map(), fetch.keys(), j)
                    ==> final(self).reg().resource_map() == old(self).reg().resource_map().remove_keys(
                        fetch.keys().subrange(0, j).to_set(),
                    ),
            r matches Some(x) ==> exists|a: &mut [V], b: PluginRegistryView<V>| {
                &&& call_ensures(f, (a, b), x)
                &&& a@.len() == fetch.keys().len()
                &&& forall|j: int| 0 <= j < a@.len() ==> #[trigger] a@[j] == old(self).reg().resource_map()[fetch.keys()[j]]
                &&& b.reg().resource_map() == old(self).reg().resource_map().remove_keys(fetch.keys().to_set())
                &&& b.reg().store_map() == old(self).reg().store_map()
                &&& b.reg().next_id() == old(self).reg().next_id()
                &&& b.reg().label_index() == old(self).reg().label_index()
                &&& final(self).reg().resource_map() == put_back_res(
                    (*final(b.borrowed())).resource_map(),
                    fetch.keys(),
                    final(a)@,
                    fetch.keys().len(),
                )
                &&& final(self).reg().store_map() == (*final(b.borrowed())).store_map()
                &&& final(self).reg().next_id() == (*final(b.borrowed())).next_id()
                &&& final(self).reg().label_index() == (*final(b.borrowed())).label_index()
            },
            r is Some ==> all_present(final(self).reg().resource_map(), fetch.keys()),
    {
        let mut tup = fetch.take(self.registry)?;
        let result = f(tup.as_mut_slice(), self.registry.view());
        let ghost mid = *self.registry;
        fetch.put_back(tup, self.registry);
        proof {
            lemma_put_back_res_present(mid.resource_map(), fetch.keys(), tup@, fetch.keys().len());
        }
        let r = Some(result);
        assert(r matches Some(x) && x == result);
        r
    }

    /// Runs `f` on the entity maps of `fetch`, taken out of the registry and
    /// put back afterwards, each as `f` left it (replacing any map `f` put in
    /// meanwhile). Gives `None`, without running `f`, when a map is missing;
    /// the maps taken before the missing one are then lost.
    pub fn exec_maps<R, F>(&mut self, fetch: &FetchEntity, f: F) -> (r: Option<R>)
        where
            F: for<'b> FnOnce(&mut [HashMap<u64, V>], PluginRegistryView<'b, V>) -> R,
        requires
            forall|a: &mut [HashMap<u64, V>], b: PluginRegistryView<V>| call_requires(f, (a, b)),
            forall|a: &mut [HashMap<u64, V>], b: PluginRegistryView<V>, x: R|
                call_ensures(f, (a, b), x) ==> final(a)@.len() == a@.len(),
        ensures
            all_fetchable(old(self).reg().store_map(), fetch.keys()) <==> r is Some,
            r is None ==> final(self).reg().resource_map() == old(self).reg().resource_map()
                && final(self).reg().next_id() == old(self).reg().next_id()
                && final(self).reg().label_index() == old(self).reg().label_index()
                && forall|j: int| #[trigger] first_missing(old(self).reg().store_map(), fetch.keys(), j)
                    ==> final(self).reg().store_map() == old(self).reg().store_map().remove_keys(
                        fetch.keys().subrange(0, j).to_set(),
                    ),
            r matches Some(x) ==> exists|a: &mut [HashMap<u64, V>], b: PluginRegistryView<V>| {
                &&& call_ensures(f, (a, b), x)
                &&& a@.len() == fetch.keys().len()
                &&& forall|j: int| 0 <= j < a@.len() ==> (#[trigger] a@[j])@ == old(self).reg().store_map()[fetch.keys()[j]]
                &&& b.reg().store_map() == old(self).reg().store_map().remove_keys(fetch.keys().to_set())
                &&& b.reg().resource_map() == old(self).reg().resource_map()
                &&& b.reg().next_id() == old(self).reg().next_id()
                &&& b.reg().label_index() == old(self).reg().label_index()
                &&& forall|j: int| 0 <= j < fetch.keys().len() ==> #[trigger] final(self).reg().store_map().contains_key(fetch.keys()[j])
                    && final(self).reg().store_map()[fetch.keys()[j]] == final(a)@[j]@
                &&& final(self).reg().store_map() == put_back_maps(
                    (*final(b.borrowed())).store_map(),
                    fetch.keys(),
                    map_views(final(a)@),
                    fetch.keys().len(),
                )
                &&& final(self).reg().resource_map() == (*final(b.borrowed())).resource_map()
                &&& final(self).reg().next_id() == (*final(b.borrowed())).next_id()
                &&& final(self).reg().label_index() == (*final(b.borrowed())).label_index()
            },
    {
        let mut maps = fetch.take(self.registry)?;
        let result = f(maps.as_mut_slice(), self.registry.view());
        let ghost mid = *self.registry;
        fetch.put_back(maps, self.registry);
        proof {
            lemma_fetchable_distinct(old(self).reg().store_map(), fetch.keys());
            lemma_put_back_maps_at(mid.store_map(), fetch.keys(), map_views(maps@), fetch.keys().len());
        }
        let r = Some(result);
        assert(r matches Some(x) && x == result);
        r
    }

    /// Runs `sys` on the entity maps of `entities` and the resources of
    /// `resources`, taken out in that order and put back afterwards (each
    /// map as `sys` left it). Gives `None`, without running `sys`, when a map
    /// or a resource is missing; what was taken before is then lost (all the
    /// maps, when a resource is missing).
    pub fn exec<R, F>(&mut self, entities: &FetchEntity, resources: &FetchRes, sys: F) -> (r: Option<R>)
        where
            F: for<'b> FnOnce(&mut [HashMap<u64, V>], &mut [V], PluginRegistryView<'b, V>) -> R,
        requires
            forall|a: &mut [HashMap<u64, V>], b: &mut [V], c: PluginRegistryView<V>|
                call_requires(sys, (a, b, c)),
            forall|a: &mut [HashMap<u64, V>], b: &mut [V], c: PluginRegistryView<V>, x: R|
                call_ensures(sys, (a, b, c), x) ==> final(a)@.len() == a@.len() && final(b)@.len() == b@.len(),
        ensures
            (all_fetchable(old(self).reg().store_map(), entities.keys())
                && all_fetchable(old(self).reg().resource_map(), resources.keys())) <==> r is Some,
            r is None ==> final(self).reg().next_id() == old(self).reg().next_id()
                && final(self).reg().label_index() == old(self).reg().label_index(),
            r is None && !all_fetchable(old(self).reg().store_map(), entities.keys()) ==>
                final(self).reg().resource_map() == old(self).reg().resource_map()
                && forall|j: int| #[trigger] first_missing(old(self).reg().store_map(), entities.keys(), j)
                    ==> final(self).reg().store_map() == old(self).reg().store_map().remove_keys(
                        entities.keys().subrange(0, j).to_set(),
                    ),
            r is None && all_fetchable(old(self).reg().store_map(), entities.keys()) ==>
                final(self).reg().store_map() == old(self).reg().store_map().remove_keys(entities.keys().to_set())
                && forall|j: int| #[trigger] first_missing(old(self).reg().resource_map(), resources.keys(), j)
                    ==> final(self).reg().resource_map() == old(self).reg().resource_map().remove_keys(
                        resources.keys().subrange(0, j).to_set(),
                    ),
            r matches Some(x) ==> exists|a: &mut [HashMap<u64, V>], b: &mut [V], c: PluginRegistryView<V>| {
                &&& call_ensures(sys, (a, b, c), x)
                &&& a@.len() == entities.keys().len()
                &&& forall|j: int| 0 <= j < a@.len() ==> (#[trigger] a@[j])@ == old(self).reg().store_map()[entities.keys()[j]]
                &&& b@.len() == resources.keys().len()
                &&& forall|j: int| 0 <= j < b@.len() ==> #[trigger] b@[j] == old(self).reg().resource_map()[resources.keys()[j]]
                &&& c.reg().store_map() == old(self).reg().store_map().remove_keys(entities.keys().to_set())
                &&& c.reg().resource_map() == old(self).reg().resource_map().remove_keys(resources.keys().to_set())
                &&& c.reg().next_id() == old(self).reg().next_id()
                &&& c.reg().label_index() == old(self).reg().label_index()
                &&& forall|j: int| 0 <= j < entities.keys().len() ==> #[trigger] final(self).reg().store_map().contains_key(entities.keys()[j])
                    && final(self).reg().store_map()[entities.keys()[j]] == final(a)@[j]@

                &&& final(self).reg().store_map() == put_back_maps(
                    (*final(c.borrowed())).store_map(),
                    entities.keys(),
                    map_views(final(a)@),
                    entities.keys().len(),
                )
                &&& final(self).reg().resource_map() == put_back_res(
                    (*final(c.borrowed())).resource_map(),
                    resources.keys(),
                    final(b)@,
                    resources.keys().len(),
                )
                &&& final(self).reg().next_id() == (*final(c.borrowed())).next_id()
                &&& final(self).reg().label_index() == (*final(c.borrowed())).label_index()
            },
            r is Some ==> all_present(final(self).reg().resource_map(), resources.keys()),
    {
        let mut maps = entities.take(self.registry)?;
        let mut res = resources.take(self.registry)?;
        let result = sys(maps.as_mut_slice(), res.as_mut_slice(), self.registry.view());
        let ghost mid = *self.registry;
        entities.put_back(maps, self.registry);
        let ghost mid2 = *self.registry;
        resources.put_back(res, self.registry);
        proof {
            lemma_fetchable_distinct(old(self).reg().store_map(), entities.keys());
            lemma_put_back_maps_at(mid.store_map(), entities.keys(), map_views(maps@), entities.keys().len());
            lemma_put_back_res_present(mid2.resource_map(), resources.keys(), res@, resources.keys().len());
        }
        let r = Some(result);
        assert(r matches Some(x) && x == result);
        r
    }
}

} // verus!
