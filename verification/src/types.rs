//! Identifiers and small records shared by the store.
use vstd::prelude::*;

verus! {

/// Identifies a component or resource type. Callers choose the keys;
/// two values stored under the same key are treated as the same type.
pub type TypeKey = u64;

/// Describes the type of the values held in one column.
#[derive(Clone, Copy, PartialEq, Eq, Structural, Debug)]
pub struct ComponentInfo {
    pub type_id: TypeKey,
}

impl ComponentInfo {
    /// Information for values of type `type_id`.
    pub fn new(type_id: TypeKey) -> (info: Self)
        ensures
            info.type_id == type_id,
    {
        ComponentInfo { type_id }
    }

    /// The key of the described type.
    pub fn type_id(&self) -> (t: TypeKey)
        ensures
            t == self.type_id,
    {
        self.type_id
    }
}

/// Identifies an archetype (one table of entities sharing a component set).
#[derive(Clone, Copy, PartialEq, Eq, Structural, Debug)]
pub struct ArchetypeId(pub u32);

impl ArchetypeId {
    /// Returns the current identifier and advances `self` to the following one.
    pub fn next(&mut self) -> (previous: Self)
        requires
            old(self).0 < u32::MAX,
        ensures
            previous == *old(self),
            final(self).0 == old(self).0 + 1,
    {
        let prev = *self;
        self.0 = self.0 + 1;
        prev
    }
}

impl Default for ArchetypeId {
    fn default() -> (id: Self)
        ensures
            id.0 == 0,
    {
        ArchetypeId(0)
    }
}

/// Identifies an entity of a [`crate::world::World`].
#[derive(Clone, Copy, PartialEq, Eq, Structural, Debug)]
pub struct EntityId(pub u32);

impl EntityId {
    /// Returns the current identifier and advances `self` to the following one.
    pub fn next(&mut self) -> (previous: Self)
        requires
            old(self).0 < u32::MAX,
        ensures
            previous == *old(self),
            final(self).0 == old(self).0 + 1,
    {
        let prev = *self;
        self.0 = self.0 + 1;
        prev
    }
}

impl Default for EntityId {
    fn default() -> (id: Self)
        ensures
            id.0 == 0,
    {
        EntityId(0)
    }
}

/// Where an entity's components are stored: its archetype and its row there.
#[derive(Clone, Copy, PartialEq, Eq, Structural, Debug)]
pub struct EntityInfo {
    pub archetype_id: ArchetypeId,
    pub row: u32,
}

/// The column at which an archetype stores a given component type.
#[derive(Clone, Copy, PartialEq, Eq, Structural, Debug)]
pub struct ArchetypeRecord {
    pub column: u32,
}

/// One component value together with the description of its type.
pub struct RawComponent<V> {
    pub value: V,
    pub info: ComponentInfo,
}

impl<V> RawComponent<V> {
    /// Pairs `value` with the type key `type_id`.
    pub fn new(type_id: TypeKey, value: V) -> (raw: Self)
        ensures
            raw.value == value,
            raw.info.type_id == type_id,
    {
        RawComponent { value, info: ComponentInfo::new(type_id) }
    }

    /// Gives back the value, which must be of type `type_id`.
    pub fn into_cast(self, type_id: TypeKey) -> (value: V)
        requires
            self.info.type_id == type_id,
        ensures
            value == self.value,
    {
        self.value
    }
}

} // verus!
