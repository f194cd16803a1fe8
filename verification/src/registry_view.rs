//! A restricted view of a [`ResourceRegistry`] handed to plugins: it offers
//! everything the registry does, but refuses to insert or remove the
//! resources that only the engine itself manages.
use vstd::prelude::*;
use crate::label_index::EntityId;
use crate::registry::{present_values, unlabelled, ResourceRegistry};
use crate::types::TypeKey;

verus! {

/// Key of the input-handler resource, managed by the engine.
pub const INPUT_HANDLER_KEY: TypeKey = 0xffff_ffff_ffff_fffd;

/// Key of the event-loop resource, managed by the engine.
pub const EVENT_LOOP_KEY: TypeKey = 0xffff_ffff_ffff_fffe;

/// Key of the global-state resource, managed by the engine.
pub const GLOBAL_STATE_KEY: TypeKey = 0xffff_ffff_ffff_ffff;

/// Whether plugins are forbidden to insert or remove resources of type `type_id`.
pub open spec fn spec_is_protected(type_id: TypeKey) -> bool {
    type_id == INPUT_HANDLER_KEY || type_id == EVENT_LOOP_KEY || type_id == GLOBAL_STATE_KEY
}

/// Whether plugins are forbidden to insert or remove resources of type `type_id`.
pub fn is_protected(type_id: TypeKey) -> (r: bool)
    ensures
        r == spec_is_protected(type_id),
{
    type_id == INPUT_HANDLER_KEY || type_id == EVENT_LOOP_KEY || type_id == GLOBAL_STATE_KEY
}

/// The registry as a plugin sees it.
pub struct PluginRegistryView<'a, V> {
    registry: &'a mut ResourceRegistry<V>,
}

impl<V> ResourceRegistry<V> {
    /// A view of this registry for a plugin.
    pub fn view(&mut self) -> (r: PluginRegistryView<'_, V>)
        ensures
            r.reg() == *old(self),
            *final(self) == *final(r.borrowed()),
    {
        PluginRegistryView { registry: self }
    }
}

impl<'a, V> PluginRegistryView<'a, V> {
    /// The registry seen through this view, as it stands now.
    pub closed spec fn reg(&self) -> ResourceRegistry<V> {
        *self.registry
    }

    /// The borrow of the registry this view holds; its final value is the
    /// registry as the view leaves it.
    pub closed spec fn borrowed(&self) -> &'a mut ResourceRegistry<V> {
        self.registry
    }

    /// The global-state resource.
    pub fn glb(&self) -> (r: &V)
        requires
            self.reg().resource_map().contains_key(GLOBAL_STATE_KEY),
        ensures
            *r == self.reg().resource_map()[GLOBAL_STATE_KEY],
    {
        self.registry.get_res(GLOBAL_STATE_KEY).unwrap()
    }

    /// Mutable access to the global-state resource.
    pub fn glb_mut(&mut self) -> (r: &mut V)
        requires
            old(self).reg().resource_map().contains_key(GLOBAL_STATE_KEY),
        ensures
            *r == old(self).reg().resource_map()[GLOBAL_STATE_KEY],
            final(self).reg().resource_map() == old(self).reg().resource_map().insert(GLOBAL_STATE_KEY, *final(r)),
            final(self).reg().store_map() == old(self).reg().store_map(),
            final(self).reg().next_id() == old(self).reg().next_id(),
            final(self).reg().label_index() == old(self).reg().label_index(),
    {
        self.registry.get_res_mut(GLOBAL_STATE_KEY).unwrap()
    }

    /// Adds an entity, as [`ResourceRegistry::spawn`] does.
    pub fn spawn(&mut self, type_id: TypeKey, label: Option<&str>, value: V) -> (id: EntityId)
        requires
            old(self).reg().next_id() < u64::MAX,
        ensures
            id == EntityId(old(self).reg().next_id()),
            final(self).reg().next_id() == old(self).reg().next_id() + 1,
            final(self).reg().store_map() == old(self).reg().store_map().insert(
                type_id,
                (if old(self).reg().store_map().contains_key(type_id) {
                    old(self).reg().store_map()[type_id]
                } else {
                    Map::<u64, V>::empty()
                }).insert(id.0, value),
            ),
            final(self).reg().resource_map() == old(self).reg().resource_map(),
            match label {
                Some(l) => final(self).reg().label_index().label_map() == old(self).reg().label_index().label_map().insert(
                    (type_id, l@),
                    (if old(self).reg().label_index().label_map().contains_key((type_id, l@)) {
                        old(self).reg().label_index().label_map()[(type_id, l@)]
                    } else {
                        Seq::<EntityId>::empty()
                    }).push(id),
                ) && final(self).reg().label_index().owner_map() == old(self).reg().label_index().owner_map().insert(
                    id.0,
                    (type_id, l@),
                ),
                None => final(self).reg().label_index() == old(self).reg().label_index(),
            },
            old(self).reg().labels_unique() ==> final(self).reg().labels_unique(),
    {
        self.registry.spawn(type_id, label, value)
    }

    /// The value of entity `id` of value type `type_id`, if any.
    pub fn get(&self, type_id: TypeKey, id: EntityId) -> (r: Option<&V>)
        ensures
            match r {
                Some(v) => self.reg().store_map().contains_key(type_id) && self.reg().store_map()[type_id].contains_key(id.0)
                    && *v == self.reg().store_map()[type_id][id.0],
                None => !(self.reg().store_map().contains_key(type_id) && self.reg().store_map()[type_id].contains_key(id.0)),
            },
    {
        self.registry.get(type_id, id)
    }

    /// Mutable access to the value of entity `id` of value type `type_id`, if any.
    pub fn get_mut(&mut self, type_id: TypeKey, id: EntityId) -> (r: Option<&mut V>)
        ensures
            final(self).reg().resource_map() == old(self).reg().resource_map(),
            final(self).reg().next_id() == old(self).reg().next_id(),
            final(self).reg().label_index() == old(self).reg().label_index(),
            match r {
                Some(v) => old(self).reg().store_map().contains_key(type_id)
                    && old(self).reg().store_map()[type_id].contains_key(id.0)
                    && *v == old(self).reg().store_map()[type_id][id.0]
                    && final(self).reg().store_map() == old(self).reg().store_map().insert(
                        type_id,
                        old(self).reg().store_map()[type_id].insert(id.0, *final(v)),
                    ),
                None => !(old(self).reg().store_map().contains_key(type_id)
                    && old(self).reg().store_map()[type_id].contains_key(id.0))
                    && final(self).reg().store_map() == old(self).reg().store_map(),
            },
    {
        self.registry.get_mut(type_id, id)
    }

    /// The values of the entities of value type `type_id` labelled `label`,
    /// in labelling order.
    pub fn get_by_label(&self, type_id: TypeKey, label: &str) -> (r: Vec<&V>)
        ensures
            r@.map_values(|x: &V| *x) == (if self.reg().store_map().contains_key(type_id) {
                present_values(
                    if self.reg().label_index().label_map().contains_key((type_id, label@)) {
                        self.reg().label_index().label_map()[(type_id, label@)]
                    } else {
                        Seq::<EntityId>::empty()
                    },
                    self.reg().store_map()[type_id],
                )
            } else {
                Seq::<V>::empty()
            }),
    {
        self.registry.get_by_label(type_id, label)
    }

    /// Removes entity `id` of value type `type_id`, as [`ResourceRegistry::despawn`] does.
    pub fn despawn(&mut self, type_id: TypeKey, id: EntityId) -> (r: Option<V>)
        ensures
            final(self).reg().resource_map() == old(self).reg().resource_map(),
            final(self).reg().next_id() == old(self).reg().next_id(),
            (old(self).reg().store_map().contains_key(type_id) && old(self).reg().store_map()[type_id].contains_key(id.0))
                <==> r is Some,
            r matches Some(v) ==> v == old(self).reg().store_map()[type_id][id.0]
                && final(self).reg().store_map() == old(self).reg().store_map().insert(
                    type_id,
                    old(self).reg().store_map()[type_id].remove(id.0),
                )
                && final(self).reg().label_index().owner_map() == old(self).reg().label_index().owner_map().remove(id.0)
                && final(self).reg().label_index().label_map() == unlabelled(old(self).reg().label_index(), id),
            r is None ==> final(self).reg().store_map() == old(self).reg().store_map()
                && final(self).reg().label_index() == old(self).reg().label_index(),
            old(self).reg().labels_unique() ==> final(self).reg().labels_unique(),
            old(self).reg().labels_unique() && r is Some ==> forall|k: (TypeKey, Seq<char>)|
                #[trigger] final(self).reg().label_index().label_map().contains_key(k)
                ==> !final(self).reg().label_index().label_map()[k].contains(id),
    {
        self.registry.despawn(type_id, id)
    }

    /// The resource of type `type_id`, if present; protected ones too.
    pub fn get_res(&self, type_id: TypeKey) -> (r: Option<&V>)
        ensures
            match r {
                Some(v) => self.reg().resource_map().contains_key(type_id) && *v == self.reg().resource_map()[type_id],
                None => !self.reg().resource_map().contains_key(type_id),
            },
    {
        self.registry.get_res(type_id)
    }

    /// Mutable access to the resource of type `type_id`, if present; protected ones too.
    pub fn get_res_mut(&mut self, type_id: TypeKey) -> (r: Option<&mut V>)
        ensures
            final(self).reg().store_map() == old(self).reg().store_map(),
            final(self).reg().next_id() == old(self).reg().next_id(),
            final(self).reg().label_index() == old(self).reg().label_index(),
            match r {
                Some(v) => old(self).reg().resource_map().contains_key(type_id)
                    && *v == old(self).reg().resource_map()[type_id]
                    && final(self).reg().resource_map() == old(self).reg().resource_map().insert(type_id, *final(v)),
                None => !old(self).reg().resource_map().contains_key(type_id)
                    && final(self).reg().resource_map() == old(self).reg().resource_map(),
            },
    {
        self.registry.get_res_mut(type_id)
    }

    /// Inserts the resource of type `type_id` unless one is present already.
    /// A protected type may not be inserted through a view.
    pub fn insert_res(&mut self, type_id: TypeKey, value: V)
        requires
            !spec_is_protected(type_id),
        ensures
            final(self).reg().resource_map() == (if old(self).reg().resource_map().contains_key(type_id) {
                old(self).reg().resource_map()
            } else {
                old(self).reg().resource_map().insert(type_id, value)
            }),
            final(self).reg().store_map() == old(self).reg().store_map(),
            final(self).reg().next_id() == old(self).reg().next_id(),
            final(self).reg().label_index() == old(self).reg().label_index(),
    {
        self.registry.insert_res(type_id, value);
    }

    /// Takes out the resource of type `type_id`, if present. A protected
    /// type may not be removed through a view.
    pub fn remove_res(&mut self, type_id: TypeKey) -> (r: Option<V>)
        requires
            !spec_is_protected(type_id),
        ensures
            final(self).reg().store_map() == old(self).reg().store_map(),
            final(self).reg().next_id() == old(self).reg().next_id(),
            final(self).reg().label_index() == old(self).reg().label_index(),
            match r {
                Some(v) => old(self).reg().resource_map().contains_key(type_id)
                    && v == old(self).reg().resource_map()[type_id]
                    && final(self).reg().resource_map() == old(self).reg().resource_map().remove(type_id),
                None => !old(self).reg().resource_map().contains_key(type_id)
                    && final(self).reg().resource_map() == old(self).reg().resource_map(),
            },
    {
        self.registry.remove_res(type_id)
    }
}

} // verus!
