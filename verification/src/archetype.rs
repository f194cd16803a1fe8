//! An archetype: the table of all entities that have exactly one given set
//! of component types, one column per type and one row per entity.
use vstd::prelude::*;
use std::collections::HashMap;
use crate::bundle::{raw_keys, raw_map, Bundle};
use crate::column::{spec_put, Column};
use crate::error::{map_ecs_err, spec_column_error, ECSError};
use crate::search::{
    binary_search, contains_u32, distinct_keys, is_insertion_point, key_index, lemma_key_index,
    lemma_sorted_distinct, strictly_sorted,
};
use crate::types::{ArchetypeId, ComponentInfo, RawComponent, TypeKey};

verus! {

broadcast use vstd::std_specs::hash::group_hash_axioms;

/// No row occurs twice in `s`.
pub open spec fn distinct_rows(s: Seq<u32>) -> bool {
    forall|i: int, j: int| 0 <= i < s.len() && 0 <= j < s.len() && i != j ==> s[i] != s[j]
}

/// The table of the entities that have exactly the component types `component_ids`.
pub struct Archetype<V> {
    pub id: ArchetypeId,
    pub length: u32,
    /// The component types, strictly increasing; column `c` holds type `component_ids[c]`.
    pub component_ids: Vec<TypeKey>,
    pub columns: Vec<Column<V>>,
    /// Known archetypes reached by adding one component type.
    pub add_archetypes: HashMap<TypeKey, ArchetypeId>,
    /// Known archetypes reached by removing one component type.
    pub remove_archetypes: HashMap<TypeKey, ArchetypeId>,
    /// Rows freed by removals, reused before new rows are made.
    pub entity_remove_list: Vec<u32>,
    /// Rows made so far, freed ones included.
    pub current_entity_count: u32,
}

impl<V> Archetype<V> {
    /// The content of the columns, column by column.
    pub open spec fn cols(&self) -> Seq<Seq<Option<V>>> {
        Seq::new(self.columns@.len(), |c: int| self.columns@[c].elems())
    }

    /// The freed rows, in the order they were freed.
    pub open spec fn free(&self) -> Seq<u32> {
        self.entity_remove_list@
    }

    /// The number of rows made so far.
    pub open spec fn count(&self) -> nat {
        self.current_entity_count as nat
    }

    /// The stored column count and each column agree with `component_ids`.
    pub open spec fn columns_wf(&self) -> bool {
        &&& self.length as int == self.component_ids@.len()
        &&& self.columns@.len() == self.component_ids@.len()
        &&& forall|c: int|
            0 <= c < self.columns@.len() ==> (#[trigger] self.columns@[c]).wf()
                && self.columns@[c].info().type_id == self.component_ids@[c]
    }

    /// The component types, in increasing order.
    pub open spec fn ids(&self) -> Seq<TypeKey> {
        self.component_ids@
    }

    /// A row that holds an entity: made, and not freed since.
    pub open spec fn is_live(&self, row: int) -> bool {
        0 <= row < self.count() && !self.free().contains(row as u32)
    }

    /// The components stored at `row`, by type.
    pub open spec fn row_map(&self, row: int) -> Map<TypeKey, V> {
        Map::new(
            |t: TypeKey| self.ids().contains(t),
            |t: TypeKey| self.cols()[key_index(self.ids(), t)][row]->0,
        )
    }

    /// The row the next insertion uses: the last freed one, else a new one.
    pub open spec fn next_row(&self) -> u32 {
        if self.free().len() > 0 {
            self.free().last()
        } else {
            self.count() as u32
        }
    }

    /// The archetype is consistent: sorted types, one full-height column
    /// per type, freed rows distinct and made, live rows filled.
    pub open spec fn wf(&self) -> bool {
        &&& self.columns_wf()
        &&& strictly_sorted(self.ids())
        &&& self.cols().len() == self.ids().len()
        &&& self.count() <= u32::MAX
        &&& forall|c: int| 0 <= c < self.cols().len() ==> (#[trigger] self.cols()[c]).len() == self.count()
        &&& distinct_rows(self.free())
        &&& forall|i: int| 0 <= i < self.free().len() ==> (#[trigger] self.free()[i]) < self.count()
        &&& forall|r: int, c: int|
            self.is_live(r) && 0 <= c < self.cols().len() ==> (#[trigger] self.cols()[c][r]) is Some
    }

    /// Identity, types, freed rows, row count and cached neighbours agree.
    pub open spec fn same_meta(&self, other: &Self) -> bool {
        &&& self.id == other.id
        &&& self.ids() == other.ids()
        &&& self.free() == other.free()
        &&& self.count() == other.count()
        &&& self.add_archetypes@ == other.add_archetypes@
        &&& self.remove_archetypes@ == other.remove_archetypes@
    }

    /// Every live row of `self` other than `row` is live in `new` with the same components.
    pub open spec fn other_rows_kept(&self, new: &Self, row: int) -> bool {
        forall|r: int| #[trigger] self.is_live(r) && r != row ==> new.is_live(r) && new.row_map(r) == self.row_map(r)
    }

    proof fn lemma_unchanged_rows(&self, new: &Self, row: int)
        requires
            self.wf(),
            new.wf(),
            self.ids() == new.ids(),
            forall|r: int| #[trigger] self.is_live(r) && r != row ==> new.is_live(r),
            forall|c: int, r: int|
                0 <= c < self.cols().len() && 0 <= r < self.count() && r != row ==> new.cols()[c][r]
                    == #[trigger] self.cols()[c][r],
        ensures
            self.other_rows_kept(new, row),
    {
        assert forall|r: int| #[trigger] self.is_live(r) && r != row implies new.is_live(r) && new.row_map(r)
            == self.row_map(r) by {
            assert forall|t: TypeKey| self.row_map(r).dom().contains(t) implies new.row_map(r)[t]
                == self.row_map(r)[t] by {
                let c = key_index(self.ids(), t);
                assert(0 <= c < self.ids().len() && self.ids()[c] == t);
                assert(new.cols()[c][r] == self.cols()[c][r]);
            }
            assert(new.row_map(r) =~= self.row_map(r));
        }
    }

    /// Replacing the value at one live row of one column keeps the archetype
    /// consistent and changes that row's map at that column's type only.
    proof fn lemma_value_update(a: Self, c: int, row: int)
        requires
            a.wf(),
            0 <= c < a.columns@.len(),
            a.is_live(row),
        ensures
            forall|b: Self|
                #![trigger b.wf()]
                #![trigger a.other_rows_kept(&b, row)]
                #![trigger b.row_map(row)]
                b.id == a.id && b.length == a.length && b.component_ids == a.component_ids
                    && b.add_archetypes == a.add_archetypes && b.remove_archetypes == a.remove_archetypes
                    && b.entity_remove_list == a.entity_remove_list
                    && b.current_entity_count == a.current_entity_count
                    && b.columns@.len() == a.columns@.len()
                    && (forall|j: int| 0 <= j < a.columns@.len() && j != c ==> b.columns@[j] == a.columns@[j])
                    && b.columns@[c].wf() && b.columns@[c].info() == a.columns@[c].info()
                    && b.columns@[c].elems().len() == a.cols()[c].len()
                    && b.columns@[c].elems()[row] is Some
                    && (forall|r: int| 0 <= r < a.cols()[c].len() && r != row ==> b.columns@[c].elems()[r] == a.cols()[c][r])
                ==> b.wf() && a.same_meta(&b) && a.other_rows_kept(&b, row)
                    && b.row_map(row) == a.row_map(row).insert(a.ids()[c], b.columns@[c].elems()[row]->0),
    {
        lemma_sorted_distinct(a.ids());
        assert forall|b: Self|
            b.id == a.id && b.length == a.length && b.component_ids == a.component_ids
                && b.add_archetypes == a.add_archetypes && b.remove_archetypes == a.remove_archetypes
                && b.entity_remove_list == a.entity_remove_list
                && b.current_entity_count == a.current_entity_count
                && b.columns@.len() == a.columns@.len()
                && (forall|j: int| 0 <= j < a.columns@.len() && j != c ==> b.columns@[j] == a.columns@[j])
                && b.columns@[c].wf() && b.columns@[c].info() == a.columns@[c].info()
                && b.columns@[c].elems().len() == a.cols()[c].len()
                && b.columns@[c].elems()[row] is Some
                && (forall|r: int| 0 <= r < a.cols()[c].len() && r != row ==> b.columns@[c].elems()[r] == a.cols()[c][r])
            implies b.wf() && a.same_meta(&b) && a.other_rows_kept(&b, row)
                && b.row_map(row) == a.row_map(row).insert(a.ids()[c], b.columns@[c].elems()[row]->0) by {
            assert forall|j: int| 0 <= j < b.cols().len() implies (#[trigger] b.cols()[j]).len() == b.count() by {
                if j != c {
                    assert(b.cols()[j] == a.cols()[j]);
                }
            }
            assert forall|r: int, j: int| b.is_live(r) && 0 <= j < b.cols().len() implies (#[trigger] b.cols()[j][r]) is Some by {
                if j != c {
                    assert(b.cols()[j] == a.cols()[j]);
                } else if r != row {
                    assert(a.cols()[c][r] is Some);
                }
            }
            assert forall|j: int, r: int|
                0 <= j < a.cols().len() && 0 <= r < a.count() && r != row implies b.cols()[j][r] == #[trigger] a.cols()[j][r] by {
                if j != c {
                    assert(b.cols()[j] == a.cols()[j]);
                }
            }
            a.lemma_unchanged_rows(&b, row);
            lemma_key_index(a.ids(), c);
            assert forall|t: TypeKey| b.row_map(row).dom().contains(t) implies b.row_map(row)[t]
                == a.row_map(row).insert(a.ids()[c], b.columns@[c].elems()[row]->0)[t] by {
                let j = key_index(a.ids(), t);
                assert(0 <= j < a.ids().len() && a.ids()[j] == t);
                if j != c {
                    assert(b.cols()[j] == a.cols()[j]);
                }
            }
            assert(b.row_map(row) =~= a.row_map(row).insert(a.ids()[c], b.columns@[c].elems()[row]->0));
        }
    }

    /// A table for the component types of `component_infos`, which must be
    /// pairwise different; the columns are sorted by type key.
    pub fn new(id: ArchetypeId, component_infos: Vec<ComponentInfo>) -> (a: Self)
        requires
            distinct_keys(component_infos@.map_values(|i: ComponentInfo| i.type_id)),
            component_infos@.len() <= u32::MAX,
        ensures
            a.wf(),
            a.id == id,
            a.ids().len() == component_infos@.len(),
            forall|t: TypeKey| a.ids().contains(t) <==> component_infos@.map_values(|i: ComponentInfo| i.type_id).contains(t),
            strictly_sorted(component_infos@.map_values(|i: ComponentInfo| i.type_id)) ==> a.ids()
                == component_infos@.map_values(|i: ComponentInfo| i.type_id),
            a.count() == 0,
            a.free().len() == 0,
            a.add_archetypes@ == Map::<TypeKey, ArchetypeId>::empty(),
            a.remove_archetypes@ == Map::<TypeKey, ArchetypeId>::empty(),
    {
        let ghost keys = component_infos@.map_values(|i: ComponentInfo| i.type_id);
        let mut ids: Vec<TypeKey> = Vec::new();
        let mut i: usize = 0;
        while i < component_infos.len()
            invariant
                keys == component_infos@.map_values(|i: ComponentInfo| i.type_id),
                distinct_keys(keys),
                i <= keys.len(),
                ids@.len() == i,
                strictly_sorted(ids@),
                forall|t: TypeKey| ids@.contains(t) <==> keys.subrange(0, i as int).contains(t),
                strictly_sorted(keys) ==> ids@ == keys.subrange(0, i as int),
            decreases keys.len() - i,
        {
            let k = component_infos[i].type_id;
            assert(keys[i as int] == k);
            let r = binary_search(&ids, k);
            match r {
                Ok(j) => {
                    proof {
                        assert(ids@.contains(k));
                        let pre = keys.subrange(0, i as int);
                        let w = choose|w: int| 0 <= w < pre.len() && pre[w] == k;
                        assert(keys[w] == k);
                    }
                },
                Err(p) => {
                    proof {
                        if strictly_sorted(keys) {
                            assert(is_insertion_point(ids@, k, ids@.len() as int)) by {
                                assert forall|j: int| 0 <= j < ids@.len() implies ids@[j] < k by {
                                    assert(ids@[j] == keys[j]);
                                }
                            }
                            crate::search::lemma_insertion_point_unique(ids@, k, p as int, ids@.len() as int);
                            assert(ids@.insert(p as int, k) =~= keys.subrange(0, i + 1));
                        }
                        crate::search::lemma_insert_sorted(ids@, k, p as int);
                        let s = ids@.insert(p as int, k);
                        let pre = keys.subrange(0, i as int);
                        let pre1 = keys.subrange(0, i + 1);
                        assert forall|t: TypeKey| s.contains(t) <==> pre1.contains(t) by {
                            if s.contains(t) {
                                let w = choose|w: int| 0 <= w < s.len() && s[w] == t;
                                if w == p {
                                    assert(pre1[i as int] == t);
                                } else {
                                    let ww = if w < p { w } else { w - 1 };
                                    assert(ids@[ww] == t);
                                    assert(ids@.contains(t));
                                    let x = choose|x: int| 0 <= x < pre.len() && pre[x] == t;
                                    assert(pre1[x] == t);
                                }
                            }
                            if pre1.contains(t) {
                                let x = choose|x: int| 0 <= x < pre1.len() && pre1[x] == t;
                                if x == i {
                                    assert(s[p as int] == t);
                                } else {
                                    assert(pre[x] == t);
                                    assert(ids@.contains(t));
                                    let w = choose|w: int| 0 <= w < ids@.len() && ids@[w] == t;
                                    let ww = if w < p { w } else { w + 1 };
                                    assert(s[ww] == t);
                                }
                            }
                        }
                    }
                    ids.insert(p, k);
                },
            }
            i = i + 1;
        }
        assert(keys.subrange(0, keys.len() as int) =~= keys);
        let mut columns: Vec<Column<V>> = Vec::new();
        let mut c: usize = 0;
        while c < ids.len()
            invariant
                c <= ids@.len(),
                columns@.len() == c,
                forall|j: int| 0 <= j < c ==> (#[trigger] columns@[j]).wf() && columns@[j].info().type_id == ids@[j]
                    && columns@[j].elems().len() == 0,
            decreases ids@.len() - c,
        {
            columns.push(Column::new(ComponentInfo::new(ids[c])));
            c = c + 1;
        }
        let a = Archetype {
            id,
            length: ids.len() as u32,
            component_ids: ids,
            columns,
            add_archetypes: HashMap::new(),
            remove_archetypes: HashMap::new(),
            entity_remove_list: Vec::new(),
            current_entity_count: 0,
        };
        assert(a.cols().len() == a.ids().len());
        assert forall|j: int| 0 <= j < a.cols().len() implies (#[trigger] a.cols()[j]).len() == a.count() by {
            assert(a.cols()[j] == a.columns@[j].elems());
        }
        a
    }

    /// The value of type `component_id` at `row`.
    pub fn get_component(&self, row: u32, component_id: TypeKey) -> (r: Result<&V, ECSError>)
        requires
            self.wf(),
        ensures
            !self.is_live(row as int) ==> r == Err::<&V, ECSError>(ECSError::ArchetypeRowNotExistant(self.id, row)),
            self.is_live(row as int) && !self.ids().contains(component_id) ==> r == Err::<&V, ECSError>(
                ECSError::ComponentAbscentFromArchetype(component_id, self.id),
            ),
            r matches Ok(v) ==> self.is_live(row as int) && self.row_map(row as int).dom().contains(component_id)
                && *v == self.row_map(row as int)[component_id],
            self.is_live(row as int) && self.ids().contains(component_id) ==> r is Ok,
    {
        if row >= self.current_entity_count || contains_u32(&self.entity_remove_list, row) {
            return Err(ECSError::ArchetypeRowNotExistant(self.id, row));
        }
        match binary_search(&self.component_ids, component_id) {
            Ok(column_idx) => {
                let column = &self.columns[column_idx];
                proof {
                    lemma_sorted_distinct(self.ids());
                    lemma_key_index(self.ids(), column_idx as int);
                    assert(self.cols()[column_idx as int] == column.elems());
                    assert(self.cols()[column_idx as int][row as int] is Some);
                }
                match column.get(row) {
                    Some(c) => Ok(c),
                    None => Err(ECSError::ColumnRowNotExistant(self.id, column_idx as u32, row)),
                }
            },
            Err(_) => Err(ECSError::ComponentAbscentFromArchetype(component_id, self.id)),
        }
    }

    /// Mutable access to the value of type `component_id` at `row`.
    pub fn get_component_mut(&mut self, row: u32, component_id: TypeKey) -> (r: Result<&mut V, ECSError>)
        requires
            old(self).wf(),
        ensures
            final(self).wf(),
            old(self).same_meta(&*final(self)),
            old(self).other_rows_kept(&*final(self), row as int),
            !old(self).is_live(row as int) ==> r == Err::<&mut V, ECSError>(
                ECSError::ArchetypeRowNotExistant(old(self).id, row),
            ),
            old(self).is_live(row as int) && !old(self).ids().contains(component_id) ==> r == Err::<&mut V, ECSError>(
                ECSError::ComponentAbscentFromArchetype(component_id, old(self).id),
            ),
            old(self).is_live(row as int) && old(self).ids().contains(component_id) ==> r is Ok,
            r is Err ==> final(self).row_map(row as int) == old(self).row_map(row as int),
            r matches Ok(v) ==> old(self).is_live(row as int) && old(self).row_map(row as int).dom().contains(
                component_id,
            ) && *v == old(self).row_map(row as int)[component_id] && final(self).row_map(row as int)
                == old(self).row_map(row as int).insert(component_id, *final(v)),
    {
        if row >= self.current_entity_count || contains_u32(&self.entity_remove_list, row) {
            return Err(ECSError::ArchetypeRowNotExistant(self.id, row));
        }
        match binary_search(&self.component_ids, component_id) {
            Ok(column_idx) => {
                let ghost old_self = *self;
                proof {
                    lemma_sorted_distinct(self.ids());
                    lemma_key_index(self.ids(), column_idx as int);
                    assert(self.cols()[column_idx as int] == self.columns@[column_idx as int].elems());
                    assert(self.cols()[column_idx as int][row as int] is Some);
                }
                proof {
                    Self::lemma_value_update(old_self, column_idx as int, row as int);
                }
                let column = &mut self.columns[column_idx];
                let res = column.get_mut(row);
                match res {
                    Some(c) => {
                        Ok(c)
                    },
                    None => Err(ECSError::ColumnRowNotExistant(self.id, column_idx as u32, row)),
                }
            },
            Err(_) => Err(ECSError::ComponentAbscentFromArchetype(component_id, self.id)),
        }
    }

    /// All fields other than the columns agree.
    pub open spec fn same_but_columns(&self, other: &Self) -> bool {
        &&& self.id == other.id
        &&& self.length == other.length
        &&& self.component_ids@ == other.component_ids@
        &&& self.add_archetypes@ == other.add_archetypes@
        &&& self.remove_archetypes@ == other.remove_archetypes@
        &&& self.entity_remove_list@ == other.entity_remove_list@
        &&& self.current_entity_count == other.current_entity_count
    }

    /// The archetype reached from `self` by adding type `t`: no rows yet,
    /// the types of `self` with `t` inserted in order.
    pub fn new_from_add(&self, id: ArchetypeId, component_info: ComponentInfo) -> (r: Result<(Self, u32), ECSError>)
        requires
            self.wf(),
            self.ids().len() < u32::MAX,
        ensures
            self.ids().contains(component_info.type_id) ==> r == Err::<(Self, u32), ECSError>(
                ECSError::ComponentExistInArchetype(component_info.type_id, self.id),
            ),
            !self.ids().contains(component_info.type_id) ==> r is Ok,
            r matches Ok((a, p)) ==> {
                &&& is_insertion_point(self.ids(), component_info.type_id, p as int)
                &&& a.ids() == self.ids().insert(p as int, component_info.type_id)
                &&& a.wf()
                &&& a.id == id
                &&& a.count() == 0
                &&& a.free().len() == 0
                &&& a.add_archetypes@ == Map::<TypeKey, ArchetypeId>::empty()
                &&& a.remove_archetypes@ == Map::<TypeKey, ArchetypeId>::empty().insert(component_info.type_id, self.id)
            },
    {
        let t = component_info.type_id;
        let insert_component_idx = match binary_search(&self.component_ids, t) {
            Ok(_) => {
                return Err(ECSError::ComponentExistInArchetype(t, self.id));
            },
            Err(p) => p,
        };
        let mut new_component_ids: Vec<TypeKey> = Vec::new();
        let mut columns: Vec<Column<V>> = Vec::new();
        let mut c: usize = 0;
        while c < self.component_ids.len()
            invariant
                self.wf(),
                c <= self.ids().len(),
                new_component_ids@ == self.ids().subrange(0, c as int),
                columns@.len() == c,
                forall|j: int| 0 <= j < c ==> (#[trigger] columns@[j]).wf() && columns@[j].info().type_id == self.ids()[j]
                    && columns@[j].elems().len() == 0,
            decreases self.ids().len() - c,
        {
            new_component_ids.push(self.component_ids[c]);
            columns.push(Column::new(self.columns[c].element_info()));
            assert(new_component_ids@ =~= self.ids().subrange(0, c + 1));
            c = c + 1;
        }
        assert(new_component_ids@ =~= self.ids());
        proof {
            crate::search::lemma_insert_sorted(self.ids(), t, insert_component_idx as int);
        }
        new_component_ids.insert(insert_component_idx, t);
        columns.insert(insert_component_idx, Column::new(component_info));
        let mut remove_archetypes: HashMap<TypeKey, ArchetypeId> = HashMap::new();
        remove_archetypes.insert(t, self.id);
        let a = Archetype {
            id,
            length: new_component_ids.len() as u32,
            component_ids: new_component_ids,
            columns,
            add_archetypes: HashMap::new(),
            remove_archetypes,
            entity_remove_list: Vec::new(),
            current_entity_count: 0,
        };
        assert forall|j: int| 0 <= j < a.columns@.len() implies (#[trigger] a.columns@[j]).wf()
            && a.columns@[j].info().type_id == a.component_ids@[j] by {
            if j < insert_component_idx {
            } else if j == insert_component_idx {
            } else {
            }
        }
        assert forall|j: int| 0 <= j < a.cols().len() implies (#[trigger] a.cols()[j]).len() == a.count() by {
            assert(a.cols()[j] == a.columns@[j].elems());
            if j < insert_component_idx {
            } else if j == insert_component_idx {
            } else {
            }
        }
        assert(a.remove_archetypes@ =~= Map::<TypeKey, ArchetypeId>::empty().insert(t, self.id));
        Ok((a, insert_component_idx as u32))
    }

    /// The archetype reached from `self` by removing type `t`: no rows yet,
    /// the types of `self` without `t`.
    pub fn new_from_delete(&self, id: ArchetypeId, component_info: ComponentInfo) -> (r: Result<(Self, u32), ECSError>)
        requires
            self.wf(),
        ensures
            !self.ids().contains(component_info.type_id) ==> r == Err::<(Self, u32), ECSError>(
                ECSError::ComponentAbscentFromArchetype(component_info.type_id, self.id),
            ),
            self.ids().contains(component_info.type_id) ==> r is Ok,
            r matches Ok((a, p)) ==> {
                &&& 0 <= p < self.ids().len()
                &&& self.ids()[p as int] == component_info.type_id
                &&& a.ids() == self.ids().remove(p as int)
                &&& a.wf()
                &&& a.id == id
                &&& a.count() == 0
                &&& a.free().len() == 0
                &&& a.add_archetypes@ == Map::<TypeKey, ArchetypeId>::empty().insert(component_info.type_id, self.id)
                &&& a.remove_archetypes@ == Map::<TypeKey, ArchetypeId>::empty()
            },
    {
        let t = component_info.type_id;
        let delete_component_idx = match binary_search(&self.component_ids, t) {
            Ok(p) => p,
            Err(_) => {
                return Err(ECSError::ComponentAbscentFromArchetype(t, self.id));
            },
        };
        let mut new_component_ids: Vec<TypeKey> = Vec::new();
        let mut columns: Vec<Column<V>> = Vec::new();
        let mut c: usize = 0;
        while c < self.component_ids.len()
            invariant
                self.wf(),
                c <= self.ids().len(),
                new_component_ids@ == self.ids().subrange(0, c as int),
                columns@.len() == c,
                forall|j: int| 0 <= j < c ==> (#[trigger] columns@[j]).wf() && columns@[j].info().type_id == self.ids()[j]
                    && columns@[j].elems().len() == 0,
            decreases self.ids().len() - c,
        {
            new_component_ids.push(self.component_ids[c]);
            columns.push(Column::new(self.columns[c].element_info()));
            assert(new_component_ids@ =~= self.ids().subrange(0, c + 1));
            c = c + 1;
        }
        assert(new_component_ids@ =~= self.ids());
        proof {
            crate::search::lemma_remove_sorted(self.ids(), delete_component_idx as int);
        }
        new_component_ids.remove(delete_component_idx);
        columns.remove(delete_component_idx);
        let mut add_archetypes: HashMap<TypeKey, ArchetypeId> = HashMap::new();
        add_archetypes.insert(t, self.id);
        let a = Archetype {
            id,
            length: new_component_ids.len() as u32,
            component_ids: new_component_ids,
            columns,
            add_archetypes,
            remove_archetypes: HashMap::new(),
            entity_remove_list: Vec::new(),
            current_entity_count: 0,
        };
        assert forall|j: int| 0 <= j < a.columns@.len() implies (#[trigger] a.columns@[j]).wf()
            && a.columns@[j].info().type_id == a.component_ids@[j] by {
            if j < delete_component_idx {
            } else {
            }
        }
        assert forall|j: int| 0 <= j < a.cols().len() implies (#[trigger] a.cols()[j]).len() == a.count() by {
            assert(a.cols()[j] == a.columns@[j].elems());
            if j < delete_component_idx {
            } else {
            }
        }
        assert(a.add_archetypes@ =~= Map::<TypeKey, ArchetypeId>::empty().insert(t, self.id));
        Ok((a, delete_component_idx as u32))
    }

    /// The map from each type of `ids` to the value at the same position of `vals`.
    pub open spec fn positional_map(ids: Seq<TypeKey>, vals: Seq<V>) -> Map<TypeKey, V> {
        Map::new(|t: TypeKey| ids.contains(t), |t: TypeKey| vals[key_index(ids, t)])
    }

    /// Values listed in the order of their distinct type keys `ids` form the
    /// same map as the components they come from.
    pub proof fn lemma_positional_raw(ids: Seq<TypeKey>, d: Seq<RawComponent<V>>)
        requires
            raw_keys(d) == ids,
            distinct_keys(ids),
        ensures
            Self::positional_map(ids, d.map_values(|x: RawComponent<V>| x.value)) == raw_map(d),
    {
        assert(Self::positional_map(ids, d.map_values(|x: RawComponent<V>| x.value)) =~= raw_map(d));
    }

    /// After writing one value per column at `a.next_row()` and taking that row
    /// out of the free list (or counting it), the archetype is consistent, the
    /// row is live with exactly those values, and no other row changed.
    proof fn lemma_fill_row(a: Self, b: Self, vals: Seq<V>)
        requires
            a.wf(),
            b.columns_wf(),
            vals.len() == a.ids().len(),
            a.free().len() == 0 ==> a.count() < u32::MAX,
            b.id == a.id,
            b.component_ids@ == a.component_ids@,
            b.add_archetypes@ == a.add_archetypes@,
            b.remove_archetypes@ == a.remove_archetypes@,
            b.free() == (if a.free().len() > 0 { a.free().drop_last() } else { a.free() }),
            b.count() == (if a.free().len() > 0 { a.count() } else { a.count() + 1 }),
            forall|c: int| 0 <= c < a.cols().len() ==> #[trigger] b.cols()[c] == spec_put(a.cols()[c], a.next_row() as int, vals[c]),
        ensures
            b.wf(),
            !a.is_live(a.next_row() as int),
            b.is_live(a.next_row() as int),
            b.row_map(a.next_row() as int) == Self::positional_map(a.ids(), vals),
            a.other_rows_kept(&b, a.next_row() as int),
    {
        let row = a.next_row() as int;
        lemma_sorted_distinct(a.ids());
        if a.free().len() > 0 {
            assert(a.free()[a.free().len() - 1] == a.next_row());
            assert(a.free().contains(a.next_row()));
            assert forall|x: u32| b.free().contains(x) implies a.free().contains(x) by {
                let i = choose|i: int| 0 <= i < b.free().len() && b.free()[i] == x;
                assert(a.free()[i] == x);
            }
            assert(!b.free().contains(row as u32)) by {
                if b.free().contains(row as u32) {
                    let i = choose|i: int| 0 <= i < b.free().len() && b.free()[i] == row as u32;
                    assert(a.free()[i] == a.free()[a.free().len() - 1]);
                }
            }
            assert forall|x: u32| a.free().contains(x) && x != a.next_row() implies b.free().contains(x) by {
                let i = choose|i: int| 0 <= i < a.free().len() && a.free()[i] == x;
                assert(i != a.free().len() - 1);
                assert(b.free()[i] == x);
            }
        }
        assert forall|c: int| 0 <= c < b.cols().len() implies (#[trigger] b.cols()[c]).len() == b.count() by {
            assert(b.cols()[c] == spec_put(a.cols()[c], row, vals[c]));
        }
        assert forall|i: int| 0 <= i < b.free().len() implies (#[trigger] b.free()[i]) < b.count() by {
            if a.free().len() > 0 {
                assert(b.free()[i] == a.free()[i]);
            }
        }
        assert forall|r: int, c: int| b.is_live(r) && 0 <= c < b.cols().len() implies (#[trigger] b.cols()[c][r]) is Some by {
            assert(b.cols()[c] == spec_put(a.cols()[c], row, vals[c]));
            if r != row {
                assert(a.is_live(r)) by {
                    if a.free().len() > 0 {
                        if a.free().contains(r as u32) {
                            let i = choose|i: int| 0 <= i < a.free().len() && a.free()[i] == r as u32;
                            assert(i != a.free().len() - 1);
                            assert(b.free()[i] == r as u32);
                        }
                    }
                }
                assert(a.cols()[c][r] is Some);
            }
        }
        assert forall|r: int| #[trigger] a.is_live(r) && r != row implies b.is_live(r) by {
            if a.free().len() > 0 {
                if b.free().contains(r as u32) {
                    let i = choose|i: int| 0 <= i < b.free().len() && b.free()[i] == r as u32;
                    assert(a.free()[i] == r as u32);
                }
            }
        }
        assert forall|c: int, r: int|
            0 <= c < a.cols().len() && 0 <= r < a.count() && r != row implies b.cols()[c][r] == #[trigger] a.cols()[c][r] by {
            assert(b.cols()[c] == spec_put(a.cols()[c], row, vals[c]));
        }
        assert(distinct_rows(b.free())) by {
            if a.free().len() > 0 {
                assert forall|i: int, j: int| 0 <= i < b.free().len() && 0 <= j < b.free().len() && i != j implies b.free()[i] != b.free()[j] by {
                    assert(b.free()[i] == a.free()[i] && b.free()[j] == a.free()[j]);
                }
            }
        }
        a.lemma_unchanged_rows(&b, row);
        assert forall|t: TypeKey| b.row_map(row).dom().contains(t) implies b.row_map(row)[t]
            == Self::positional_map(a.ids(), vals)[t] by {
            let c = key_index(a.ids(), t);
            assert(0 <= c < a.ids().len() && a.ids()[c] == t);
            assert(b.cols()[c] == spec_put(a.cols()[c], row, vals[c]));
        }
        assert(b.row_map(row) =~= Self::positional_map(a.ids(), vals));
    }

    /// Writes `raw_component` at `row` of column `column_index`, whatever its type.
    fn insert_raw_component(&mut self, raw_component: RawComponent<V>, row: u32, column_index: u32) -> (r: Result<(), ECSError>)
        requires
            old(self).columns_wf(),
            column_index < old(self).columns@.len(),
            row == old(self).cols()[column_index as int].len() ==> row < u32::MAX,
        ensures
            final(self).columns_wf(),
            final(self).same_but_columns(&*old(self)),
            final(self).cols().len() == old(self).cols().len(),
            row > old(self).cols()[column_index as int].len() ==> r == Err::<(), ECSError>(
                ECSError::ColumnRowNotExistant(old(self).id, column_index, row),
            ) && final(self).cols() == old(self).cols(),
            row <= old(self).cols()[column_index as int].len() ==> r is Ok && final(self).cols() == old(self).cols().update(
                column_index as int,
                spec_put(old(self).cols()[column_index as int], row as int, raw_component.value),
            ),
    {
        let ghost a = *self;
        let column = &mut self.columns[column_index as usize];
        let res = column.insert_raw_component(raw_component, row);
        let out = map_ecs_err(res, self.id, column_index);
        proof {
            assert(self.columns@ == a.columns@.update(column_index as int, self.columns@[column_index as int]));
            assert(self.cols() =~= (if row > a.cols()[column_index as int].len() { a.cols() } else { a.cols().update(
                column_index as int,
                spec_put(a.cols()[column_index as int], row as int, raw_component.value),
            ) }));
        }
        out
    }

    /// Writes `value` at `row` of the column of its type.
    fn insert_component(&mut self, value: RawComponent<V>, row: u32) -> (r: Result<(), ECSError>)
        requires
            old(self).columns_wf(),
            strictly_sorted(old(self).ids()),
            forall|c: int| 0 <= c < old(self).cols().len() && row == (#[trigger] old(self).cols()[c]).len() ==> row < u32::MAX,
        ensures
            final(self).columns_wf(),
            final(self).same_but_columns(&*old(self)),
            final(self).cols().len() == old(self).cols().len(),
            !old(self).ids().contains(value.info.type_id) ==> r == Err::<(), ECSError>(
                ECSError::ComponentAbscentFromArchetype(value.info.type_id, old(self).id),
            ) && final(self).cols() == old(self).cols(),
            old(self).ids().contains(value.info.type_id) ==> ({
                let c = key_index(old(self).ids(), value.info.type_id);
                &&& row > old(self).cols()[c].len() ==> r == Err::<(), ECSError>(
                    ECSError::ColumnRowNotExistant(old(self).id, c as u32, row),
                ) && final(self).cols() == old(self).cols()
                &&& row <= old(self).cols()[c].len() ==> r is Ok && final(self).cols() == old(self).cols().update(
                    c,
                    spec_put(old(self).cols()[c], row as int, value.value),
                )
            }),
    {
        let component_id = value.info.type_id;
        let column_index = match binary_search(&self.component_ids, component_id) {
            Ok(i) => i,
            Err(_) => {
                return Err(ECSError::ComponentAbscentFromArchetype(component_id, self.id));
            },
        };
        proof {
            lemma_sorted_distinct(self.ids());
            lemma_key_index(self.ids(), column_index as int);
        }
        let ghost a = *self;
        let column = &mut self.columns[column_index];
        let res = column.insert(value, row);
        let out = map_ecs_err(res, self.id, column_index as u32);
        proof {
            assert(self.columns@ == a.columns@.update(column_index as int, self.columns@[column_index as int]));
            assert(self.cols() =~= (if row > a.cols()[column_index as int].len() { a.cols() } else { a.cols().update(
                column_index as int,
                spec_put(a.cols()[column_index as int], row as int, value.value),
            ) }));
        }
        out
    }

    /// After emptying every column at a live `row` and freeing it, the
    /// archetype is consistent, the row is no longer live, and no other row changed.
    proof fn lemma_vacate_row(a: Self, b: Self, row: int)
        requires
            a.wf(),
            a.is_live(row),
            b.columns_wf(),
            b.id == a.id,
            b.component_ids@ == a.component_ids@,
            b.add_archetypes@ == a.add_archetypes@,
            b.remove_archetypes@ == a.remove_archetypes@,
            b.free() == a.free().push(row as u32),
            b.count() == a.count(),
            forall|c: int| 0 <= c < a.cols().len() ==> #[trigger] b.cols()[c] == a.cols()[c].update(row, None),
        ensures
            b.wf(),
            !b.is_live(row),
            a.other_rows_kept(&b, row),
    {
        assert(b.free()[b.free().len() - 1] == row as u32);
        assert forall|c: int| 0 <= c < b.cols().len() implies (#[trigger] b.cols()[c]).len() == b.count() by {
            assert(b.cols()[c] == a.cols()[c].update(row, None));
        }
        assert forall|i: int| 0 <= i < b.free().len() implies (#[trigger] b.free()[i]) < b.count() by {
            if i < a.free().len() {
                assert(b.free()[i] == a.free()[i]);
            }
        }
        assert(distinct_rows(b.free())) by {
            assert forall|i: int, j: int| 0 <= i < b.free().len() && 0 <= j < b.free().len() && i != j implies b.free()[i] != b.free()[j] by {
                if i < a.free().len() && j < a.free().len() {
                    assert(b.free()[i] == a.free()[i] && b.free()[j] == a.free()[j]);
                } else if i < a.free().len() {
                    assert(b.free()[i] == a.free()[i]);
                    assert(a.free().contains(a.free()[i]));
                } else {
                    assert(b.free()[j] == a.free()[j]);
                    assert(a.free().contains(a.free()[j]));
                }
            }
        }
        assert forall|r: int| #[trigger] a.is_live(r) && r != row implies b.is_live(r) by {
            if b.free().contains(r as u32) {
                let i = choose|i: int| 0 <= i < b.free().len() && b.free()[i] == r as u32;
                if i < a.free().len() {
                    assert(a.free()[i] == r as u32);
                }
            }
        }
        assert forall|r: int, c: int| b.is_live(r) && 0 <= c < b.cols().len() implies (#[trigger] b.cols()[c][r]) is Some by {
            assert(b.cols()[c] == a.cols()[c].update(row, None));
            assert(r != row);
            assert(a.is_live(r)) by {
                if a.free().contains(r as u32) {
                    let i = choose|i: int| 0 <= i < a.free().len() && a.free()[i] == r as u32;
                    assert(b.free()[i] == r as u32);
                }
            }
            assert(a.cols()[c][r] is Some);
        }
        assert forall|c: int, r: int|
            0 <= c < a.cols().len() && 0 <= r < a.count() && r != row implies b.cols()[c][r] == #[trigger] a.cols()[c][r] by {
            assert(b.cols()[c] == a.cols()[c].update(row, None));
        }
        a.lemma_unchanged_rows(&b, row);
    }

    /// Moves the value of type `component_id` out of `row`.
    fn remove_component(&mut self, component_id: TypeKey, row: u32) -> (r: Result<RawComponent<V>, ECSError>)
        requires
            old(self).columns_wf(),
            strictly_sorted(old(self).ids()),
        ensures
            final(self).columns_wf(),
            final(self).same_but_columns(&*old(self)),
            final(self).cols().len() == old(self).cols().len(),
            !old(self).ids().contains(component_id) ==> r == Err::<RawComponent<V>, ECSError>(
                ECSError::ComponentAbscentFromArchetype(component_id, old(self).id),
            ) && final(self).cols() == old(self).cols(),
            old(self).ids().contains(component_id) ==> ({
                let c = key_index(old(self).ids(), component_id);
                &&& (row < old(self).cols()[c].len() && old(self).cols()[c][row as int] is Some) <==> r is Ok
                &&& r is Err ==> r == Err::<RawComponent<V>, ECSError>(
                    ECSError::ColumnRowNotExistant(old(self).id, c as u32, row),
                ) && final(self).cols() == old(self).cols()
                &&& r matches Ok(raw) ==> raw.value == old(self).cols()[c][row as int]->0
                    && raw.info.type_id == component_id
                    && final(self).cols() == old(self).cols().update(c, old(self).cols()[c].update(row as int, None))
            }),
    {
        let column_index = match binary_search(&self.component_ids, component_id) {
            Ok(i) => i,
            Err(_) => {
                return Err(ECSError::ComponentAbscentFromArchetype(component_id, self.id));
            },
        };
        proof {
            lemma_sorted_distinct(self.ids());
            lemma_key_index(self.ids(), column_index as int);
        }
        let ghost a = *self;
        let column = &mut self.columns[column_index];
        let res = column.delete(component_id, row);
        let out = map_ecs_err(res, self.id, column_index as u32);
        proof {
            assert(self.columns@ == a.columns@.update(column_index as int, self.columns@[column_index as int]));
            if out is Ok {
                assert(self.cols() =~= a.cols().update(column_index as int, a.cols()[column_index as int].update(row as int, None)));
            } else {
                assert(self.cols() =~= a.cols());
            }
        }
        out
    }

    /// Removes the entity at `row`: every column gives up its value there and
    /// the row is freed for reuse. A row already freed is refused, and so is a
    /// row past the end, by the first column.
    pub(crate) fn remove_row(&mut self, row: u32) -> (r: Result<(), ECSError>)
        requires
            old(self).wf(),
            old(self).ids().len() == 0 ==> row < old(self).count(),
        ensures
            old(self).free().contains(row) ==> r == Err::<(), ECSError>(ECSError::ArchetypeRowNotExistant(old(self).id, row))
                && *final(self) == *old(self),
            !old(self).free().contains(row) && row >= old(self).count() ==> r
                == Err::<(), ECSError>(ECSError::ColumnRowNotExistant(old(self).id, 0, row)) && *final(self) == *old(self),
            !old(self).free().contains(row) && row < old(self).count() ==> r is Ok,
            final(self).wf(),
            final(self).id == old(self).id,
            final(self).ids() == old(self).ids(),
            final(self).add_archetypes@ == old(self).add_archetypes@,
            final(self).remove_archetypes@ == old(self).remove_archetypes@,
            !final(self).is_live(row as int),
            old(self).other_rows_kept(&*final(self), row as int),
            final(self).count() == old(self).count(),
            r is Ok ==> final(self).free() == old(self).free().push(row),
    {
        if contains_u32(&self.entity_remove_list, row) {
            return Err(ECSError::ArchetypeRowNotExistant(self.id, row));
        }
        if row >= self.current_entity_count {
            return Err(ECSError::ColumnRowNotExistant(self.id, 0, row));
        }
        let ghost a = *self;
        proof {
            lemma_sorted_distinct(a.ids());
        }
        let mut i: usize = 0;
        while i < self.component_ids.len()
            invariant
                a.wf(),
                a.is_live(row as int),
                distinct_keys(a.ids()),
                self.columns_wf(),
                self.same_but_columns(&a),
                self.cols().len() == a.cols().len(),
                i <= a.ids().len(),
                forall|c: int| 0 <= c < i ==> #[trigger] self.cols()[c] == a.cols()[c].update(row as int, None),
                forall|c: int| i <= c < a.cols().len() ==> #[trigger] self.cols()[c] == a.cols()[c],
            decreases a.ids().len() - i,
        {
            let component_id = self.component_ids[i];
            proof {
                lemma_key_index(a.ids(), i as int);
                assert(a.cols()[i as int][row as int] is Some);
            }
            let ghost before = *self;
            self.remove_component(component_id, row)?;
            assert forall|c: int| 0 <= c < i + 1 implies #[trigger] self.cols()[c] == a.cols()[c].update(row as int, None) by {
                if c < i {
                    assert(self.cols()[c] == before.cols()[c]);
                }
            }
            i = i + 1;
        }
        self.entity_remove_list.push(row);
        proof {
            Self::lemma_vacate_row(a, *self, row as int);
        }
        Ok(())
    }

    /// Inserts an entity made of `bundle`, one component per column, at the
    /// next row (the last freed one, else a new one); returns that row.
    pub(crate) fn insert_bundle(&mut self, bundle: Bundle<V>) -> (r: Result<u32, ECSError>)
        requires
            old(self).wf(),
            bundle.wf(),
            bundle.keys() == old(self).ids(),
            old(self).free().len() == 0 ==> old(self).count() < u32::MAX,
        ensures
            r == Ok::<u32, ECSError>(old(self).next_row()),
            final(self).wf(),
            final(self).id == old(self).id,
            final(self).ids() == old(self).ids(),
            final(self).add_archetypes@ == old(self).add_archetypes@,
            final(self).remove_archetypes@ == old(self).remove_archetypes@,
            final(self).free() == (if old(self).free().len() > 0 { old(self).free().drop_last() } else { old(self).free() }),
            final(self).count() == (if old(self).free().len() > 0 { old(self).count() } else { old(self).count() + 1 }),
            !old(self).is_live(old(self).next_row() as int),
            final(self).is_live(old(self).next_row() as int),
            final(self).row_map(old(self).next_row() as int) == bundle.view_map(),
            old(self).other_rows_kept(&*final(self), old(self).next_row() as int),
    {
        let ghost a = *self;
        let ghost vals = bundle.entries().map_values(|x: RawComponent<V>| x.value);
        let row = match self.entity_remove_list.pop() {
            Some(row) => row,
            None => {
                let insert_row = self.current_entity_count;
                self.current_entity_count = self.current_entity_count + 1;
                insert_row
            },
        };
        proof {
            assert forall|c: int| 0 <= c < self.cols().len() implies row <= (#[trigger] self.cols()[c]).len()
                && (row == self.cols()[c].len() ==> row < u32::MAX) by {
                assert(self.cols()[c] == a.cols()[c]);
                if a.free().len() > 0 {
                    assert(a.free()[a.free().len() - 1] < a.count());
                }
            }
        }
        let ghost mid = *self;
        bundle.put_components(self, row)?;
        proof {
            assert(raw_keys(bundle.entries()).len() == bundle.entries().len());
            Self::lemma_fill_row(a, *self, vals);
            assert(Self::positional_map(a.ids(), vals) =~= bundle.view_map());
        }
        Ok(row)
    }

    /// Inserts an entity given as one component per column, in column order,
    /// at the next row (the last freed one, else a new one); returns that row.
    /// The component types are not checked against the columns.
    pub fn insert_row_ptr(&mut self, components: Vec<RawComponent<V>>) -> (r: Result<u32, ECSError>)
        requires
            old(self).wf(),
            components@.len() == old(self).ids().len(),
            old(self).free().len() == 0 ==> old(self).count() < u32::MAX,
        ensures
            r == Ok::<u32, ECSError>(old(self).next_row()),
            final(self).wf(),
            final(self).id == old(self).id,
            final(self).ids() == old(self).ids(),
            final(self).add_archetypes@ == old(self).add_archetypes@,
            final(self).remove_archetypes@ == old(self).remove_archetypes@,
            final(self).free() == (if old(self).free().len() > 0 { old(self).free().drop_last() } else { old(self).free() }),
            final(self).count() == (if old(self).free().len() > 0 { old(self).count() } else { old(self).count() + 1 }),
            !old(self).is_live(old(self).next_row() as int),
            final(self).is_live(old(self).next_row() as int),
            final(self).row_map(old(self).next_row() as int) == Self::positional_map(
                old(self).ids(),
                components@.map_values(|x: RawComponent<V>| x.value),
            ),
            old(self).other_rows_kept(&*final(self), old(self).next_row() as int),
    {
        let ghost a = *self;
        let ghost entries = components@;
        let ghost vals = components@.map_values(|x: RawComponent<V>| x.value);
        let row = match self.entity_remove_list.pop() {
            Some(row) => row,
            None => {
                let insert_row = self.current_entity_count;
                self.current_entity_count = self.current_entity_count + 1;
                insert_row
            },
        };
        proof {
            if a.free().len() > 0 {
                assert(a.free()[a.free().len() - 1] < a.count());
            }
        }
        let mut comps = components;
        while comps.len() > 0
            invariant
                comps@.len() <= entries.len(),
                comps@ == entries.subrange(0, comps@.len() as int),
                entries.len() == a.ids().len(),
                vals == entries.map_values(|x: RawComponent<V>| x.value),
                a.wf(),
                row == a.next_row(),
                a.free().len() == 0 ==> a.count() < u32::MAX,
                self.columns_wf(),
                self.id == a.id,
                self.length == a.length,
                self.component_ids@ == a.component_ids@,
                self.add_archetypes@ == a.add_archetypes@,
                self.remove_archetypes@ == a.remove_archetypes@,
                self.free() == (if a.free().len() > 0 { a.free().drop_last() } else { a.free() }),
                self.count() == (if a.free().len() > 0 { a.count() } else { a.count() + 1 }),
                self.cols().len() == a.cols().len(),
                forall|c: int| comps@.len() <= c < a.cols().len() ==> 
                    #[trigger] self.cols()[c] == spec_put(a.cols()[c], row as int, vals[c]),
                forall|c: int| 0 <= c < comps@.len() ==> #[trigger] self.cols()[c] == a.cols()[c],
            decreases comps@.len(),
        {
            let ghost n = comps@.len() as int;
            let index = comps.len() - 1;
            let raw = comps.pop().unwrap();
            assert(raw == entries[n - 1]);
            assert(self.cols()[n - 1] == a.cols()[n - 1]);
            self.insert_raw_component(raw, row, index as u32)?;
            assert forall|c: int| n - 1 <= c < a.cols().len() implies
                #[trigger] self.cols()[c] == spec_put(a.cols()[c], row as int, vals[c]) by {
                if c == n - 1 {
                } else {
                }
            }
        }
        proof {
            Self::lemma_fill_row(a, *self, vals);
        }
        Ok(row)
    }

    /// Removes the entity at `row` and returns its components, one per column
    /// in column order; the row is freed for reuse. A row that is not live is refused.
    pub fn remove_raw_component(&mut self, row: u32) -> (r: Result<Vec<RawComponent<V>>, ECSError>)
        requires
            old(self).wf(),
        ensures
            !old(self).is_live(row as int) ==> r == Err::<Vec<RawComponent<V>>, ECSError>(
                ECSError::ArchetypeRowNotExistant(old(self).id, row),
            ) && *final(self) == *old(self),
            old(self).is_live(row as int) ==> r is Ok,
            final(self).wf(),
            final(self).id == old(self).id,
            final(self).ids() == old(self).ids(),
            final(self).add_archetypes@ == old(self).add_archetypes@,
            final(self).remove_archetypes@ == old(self).remove_archetypes@,
            final(self).count() == old(self).count(),
            old(self).other_rows_kept(&*final(self), row as int),
            r matches Ok(v) ==> {
                &&& raw_keys(v@) == old(self).ids()
                &&& raw_map(v@) == old(self).row_map(row as int)
                &&& final(self).free() == old(self).free().push(row)
                &&& !final(self).is_live(row as int)
            },
    {
        if row >= self.current_entity_count || contains_u32(&self.entity_remove_list, row) {
            return Err(ECSError::ArchetypeRowNotExistant(self.id, row));
        }
        let ghost a = *self;
        proof {
            lemma_sorted_distinct(a.ids());
        }
        let mut row_components: Vec<RawComponent<V>> = Vec::new();
        let mut column_idx: usize = 0;
        while column_idx < self.columns.len()
            invariant
                a.wf(),
                a.is_live(row as int),
                distinct_keys(a.ids()),
                self.columns_wf(),
                self.same_but_columns(&a),
                self.cols().len() == a.cols().len(),
                column_idx <= a.ids().len(),
                row_components@.len() == column_idx,
                forall|c: int| 0 <= c < column_idx ==> (#[trigger] row_components@[c]).value == a.cols()[c][row as int]->0
                    && row_components@[c].info.type_id == a.ids()[c],
                forall|c: int| 0 <= c < column_idx ==> #[trigger] self.cols()[c] == a.cols()[c].update(row as int, None),
                forall|c: int| column_idx <= c < a.cols().len() ==> #[trigger] self.cols()[c] == a.cols()[c],
            decreases a.ids().len() - column_idx,
        {
            proof {
                assert(a.cols()[column_idx as int][row as int] is Some);
                assert(self.cols()[column_idx as int] == self.columns@[column_idx as int].elems());
            }
            let ghost before = *self;
            let res = self.columns[column_idx].get_raw_component(row);
            proof {
                assert(self.columns@ == before.columns@.update(column_idx as int, self.columns@[column_idx as int]));
                assert forall|c: int| 0 <= c < self.cols().len() && c != column_idx implies #[trigger] self.cols()[c] == before.cols()[c] by {}
            }
            let raw_component = map_ecs_err(res, self.id, column_idx as u32)?;
            row_components.push(raw_component);
            assert forall|c: int| 0 <= c < column_idx + 1 implies #[trigger] self.cols()[c] == a.cols()[c].update(row as int, None) by {
                if c < column_idx {
                    assert(self.cols()[c] == before.cols()[c]);
                }
            }
            column_idx = column_idx + 1;
        }
        self.entity_remove_list.push(row);
        proof {
            Self::lemma_vacate_row(a, *self, row as int);
            let v = row_components@;
            assert(raw_keys(v) =~= a.ids());
            assert forall|t: TypeKey| raw_map(v).dom().contains(t) implies raw_map(v)[t] == a.row_map(row as int)[t] by {
                let c = key_index(a.ids(), t);
                assert(0 <= c < a.ids().len() && a.ids()[c] == t);
            }
            assert(raw_map(v) =~= a.row_map(row as int));
        }
        Ok(row_components)
    }
}

impl<V> Bundle<V> {
    /// Writes every component of the bundle at `row` of `storage`, in the
    /// column of its type. The bundle must have one component per column.
    pub(crate) fn put_components(self, storage: &mut Archetype<V>, row: u32) -> (r: Result<(), ECSError>)
        requires
            self.wf(),
            self.keys().len() <= u32::MAX,
            old(storage).columns_wf(),
            strictly_sorted(old(storage).ids()),
            forall|c: int| 0 <= c < old(storage).cols().len() ==> row <= (#[trigger] old(storage).cols()[c]).len()
                && (row == old(storage).cols()[c].len() ==> row < u32::MAX),
        ensures
            final(storage).columns_wf(),
            final(storage).same_but_columns(&*old(storage)),
            final(storage).cols().len() == old(storage).cols().len(),
            self.keys().len() != old(storage).ids().len() ==> r == Err::<(), ECSError>(
                ECSError::BundleArchetypeSizeMismatch(old(storage).id, self.keys().len() as u32, old(storage).length),
            ) && final(storage).cols() == old(storage).cols(),
            self.keys() == old(storage).ids() ==> r is Ok && forall|c: int| 0 <= c < old(storage).cols().len() ==> 
                #[trigger] final(storage).cols()[c] == spec_put(old(storage).cols()[c], row as int, self.entries()[c].value),
    {
        let ghost orig_entries = self.entries();
        let mut comps = self.into_components();
        let bundle_len = comps.len();
        if storage.component_ids.len() != bundle_len {
            return Err(ECSError::BundleArchetypeSizeMismatch(storage.id, bundle_len as u32, storage.length));
        }
        let ghost a = *storage;
        let ghost entries = comps@;
        let ghost matching = raw_keys(entries) == a.ids();
        proof {
            lemma_sorted_distinct(a.ids());
            assert(raw_keys(entries).len() == entries.len());
        }
        while comps.len() > 0
            invariant
                comps@.len() <= entries.len(),
                comps@ == entries.subrange(0, comps@.len() as int),
                entries.len() == a.ids().len(),
                a == *old(storage),
                entries == orig_entries,
                orig_entries == self.entries(),
                matching == (raw_keys(entries) == a.ids()),
                distinct_keys(a.ids()),
                storage.columns_wf(),
                storage.same_but_columns(&a),
                storage.cols().len() == a.cols().len(),
                strictly_sorted(a.ids()),
                forall|c: int| 0 <= c < a.cols().len() ==> row <= (#[trigger] a.cols()[c]).len()
                    && (row == a.cols()[c].len() ==> row < u32::MAX),
                forall|c: int| 0 <= c < a.cols().len() ==> row <= (#[trigger] storage.cols()[c]).len()
                    && (row == storage.cols()[c].len() ==> row < u32::MAX),
                matching ==> forall|c: int| comps@.len() <= c < a.cols().len() ==> 
                    #[trigger] storage.cols()[c] == spec_put(a.cols()[c], row as int, entries[c].value),
                matching ==> forall|c: int| 0 <= c < comps@.len() ==> #[trigger] storage.cols()[c] == a.cols()[c],
            decreases comps@.len(),
        {
            let ghost n = comps@.len() as int;
            let ghost before = *storage;
            let raw = comps.pop().unwrap();
            assert(raw == entries[n - 1]);
            proof {
                if matching {
                    assert(raw_keys(entries)[n - 1] == raw.info.type_id);
                    assert(a.ids()[n - 1] == raw.info.type_id);
                    lemma_key_index(a.ids(), n - 1);
                    assert(storage.ids() == a.ids());
                    assert(storage.ids().contains(raw.info.type_id));
                    assert(row <= storage.cols()[n - 1].len());
                }
            }
            storage.insert_component(raw, row)?;
            proof {
                if matching {
                    assert forall|c: int| n - 1 <= c < a.cols().len() implies
                        #[trigger] storage.cols()[c] == spec_put(a.cols()[c], row as int, entries[c].value) by {
                        if c == n - 1 {
                        } else {
                        }
                    }
                }
                assert forall|c: int| 0 <= c < a.cols().len() implies row <= (#[trigger] storage.cols()[c]).len()
                    && (row == storage.cols()[c].len() ==> row < u32::MAX) by {
                    if row <= before.cols()[c].len() {
                    }
                }
            }
        }
        Ok(())
    }
}

} // verus!
