//! A column: the values of one component type, one per row of an archetype.
use vstd::prelude::*;
use crate::error::ColumnError;
use crate::types::{ComponentInfo, RawComponent, TypeKey};

verus! {

/// The column content after writing `v` at `row`: an overwrite inside the
/// column, an append at its end.
pub open spec fn spec_put<V>(s: Seq<Option<V>>, row: int, v: V) -> Seq<Option<V>> {
    if row < s.len() {
        s.update(row, Some(v))
    } else {
        s.push(Some(v))
    }
}

/// The values of one component type, indexed by row. A row whose value was
/// moved out holds `None`.
pub struct Column<V> {
    elements: Vec<Option<V>>,
    element_info: ComponentInfo,
    count: u32,
}

impl<V> Column<V> {
    /// The content, row by row.
    pub closed spec fn elems(&self) -> Seq<Option<V>> {
        self.elements@
    }

    /// The type of the values held.
    pub closed spec fn info(&self) -> ComponentInfo {
        self.element_info
    }

    /// The row count agrees with the content.
    pub closed spec fn wf(&self) -> bool {
        self.count as int == self.elements@.len()
    }

    /// An empty column for values described by `element_info`.
    pub fn new(element_info: ComponentInfo) -> (c: Self)
        ensures
            c.wf(),
            c.elems() == Seq::<Option<V>>::empty(),
            c.info() == element_info,
    {
        Column { elements: Vec::new(), element_info, count: 0 }
    }

    /// The type of the values held.
    pub fn element_info(&self) -> (info: ComponentInfo)
        ensures
            info == self.info(),
    {
        self.element_info
    }

    /// The number of rows.
    pub fn count(&self) -> (n: u32)
        requires
            self.wf(),
        ensures
            n == self.elems().len(),
    {
        self.count
    }

    /// Writes `component` at `row`, whatever its type: an overwrite for an
    /// existing row, an append for `row == count`; a row past the end is refused.
    pub fn insert_raw_component(&mut self, component: RawComponent<V>, row: u32) -> (r: Result<(), ColumnError>)
        requires
            old(self).wf(),
            row == old(self).elems().len() ==> row < u32::MAX,
        ensures
            final(self).wf(),
            final(self).info() == old(self).info(),
            row > old(self).elems().len() ==> r == Err::<(), ColumnError>(ColumnError::ColumnGivenRowOutOfBounds(row))
                && final(self).elems() == old(self).elems(),
            row <= old(self).elems().len() ==> r is Ok
                && final(self).elems() == spec_put(old(self).elems(), row as int, component.value),
    {
        if row > self.count {
            return Err(ColumnError::ColumnGivenRowOutOfBounds(row));
        }
        if row == self.count {
            self.elements.push(Some(component.value));
            self.count = self.count + 1;
        } else {
            self.elements.set(row as usize, Some(component.value));
        }
        Ok(())
    }

    /// Moves the value out of `row`, leaving the row vacant.
    pub fn get_raw_component(&mut self, row: u32) -> (r: Result<RawComponent<V>, ColumnError>)
        requires
            old(self).wf(),
        ensures
            final(self).wf(),
            final(self).info() == old(self).info(),
            (row < old(self).elems().len() && old(self).elems()[row as int] is Some) <==> r is Ok,
            match r {
                Ok(raw) => raw.value == old(self).elems()[row as int]->0 && raw.info == old(self).info()
                    && final(self).elems() == old(self).elems().update(row as int, None),
                Err(e) => e == ColumnError::ColumnRowNotExistant(row) && final(self).elems() == old(self).elems(),
            },
    {
        if row >= self.count {
            return Err(ColumnError::ColumnRowNotExistant(row));
        }
        if self.elements[row as usize].is_none() {
            return Err(ColumnError::ColumnRowNotExistant(row));
        }
        let taken = self.elements[row as usize].take();
        match taken {
            Some(value) => Ok(RawComponent { value, info: self.element_info }),
            None => Err(ColumnError::ColumnRowNotExistant(row)),
        }
    }

    /// The value at `row`, if the row exists and holds one.
    pub fn get(&self, row: u32) -> (r: Option<&V>)
        requires
            self.wf(),
        ensures
            match r {
                Some(v) => row < self.elems().len() && self.elems()[row as int] == Some(*v),
                None => row >= self.elems().len() || self.elems()[row as int] is None,
            },
    {
        if row >= self.count {
            return None;
        }
        self.elements[row as usize].as_ref()
    }

    /// Mutable access to the value at `row`, if the row exists and holds one.
    pub fn get_mut(&mut self, row: u32) -> (r: Option<&mut V>)
        requires
            old(self).wf(),
        ensures
            final(self).wf(),
            final(self).info() == old(self).info(),
            match r {
                Some(v) => row < old(self).elems().len() && old(self).elems()[row as int] == Some(*v)
                    && final(self).elems() == old(self).elems().update(row as int, Some(*final(v))),
                None => (row >= old(self).elems().len() || old(self).elems()[row as int] is None)
                    && final(self).elems() == old(self).elems(),
            },
    {
        if row >= self.count {
            return None;
        }
        self.elements[row as usize].as_mut()
    }

    /// Writes `component` at `row` after checking that it has the column's type:
    /// an overwrite for an existing row, an append for `row == count`.
    pub fn insert(&mut self, component: RawComponent<V>, row: u32) -> (r: Result<(), ColumnError>)
        requires
            old(self).wf(),
            row == old(self).elems().len() ==> row < u32::MAX,
        ensures
            final(self).wf(),
            final(self).info() == old(self).info(),
            component.info.type_id != old(self).info().type_id ==> r == Err::<(), ColumnError>(
                ColumnError::ColumnComponentTypeMismatch(old(self).info().type_id, component.info.type_id),
            ) && final(self).elems() == old(self).elems(),
            component.info.type_id == old(self).info().type_id && row > old(self).elems().len() ==> r
                == Err::<(), ColumnError>(ColumnError::ColumnGivenRowOutOfBounds(row)) && final(self).elems()
                == old(self).elems(),
            component.info.type_id == old(self).info().type_id && row <= old(self).elems().len() ==> r is Ok
                && final(self).elems() == spec_put(old(self).elems(), row as int, component.value),
    {
        let component_id = component.info.type_id;
        if self.element_info.type_id != component_id {
            return Err(ColumnError::ColumnComponentTypeMismatch(self.element_info.type_id, component_id));
        }
        self.insert_raw_component(component, row)
    }

    /// Moves out the value of type `component_id` at `row`, leaving the row vacant.
    pub fn delete(&mut self, component_id: TypeKey, row: u32) -> (r: Result<RawComponent<V>, ColumnError>)
        requires
            old(self).wf(),
        ensures
            final(self).wf(),
            final(self).info() == old(self).info(),
            (component_id == old(self).info().type_id && row < old(self).elems().len()
                && old(self).elems()[row as int] is Some) <==> r is Ok,
            match r {
                Ok(raw) => raw.value == old(self).elems()[row as int]->0 && raw.info == old(self).info()
                    && final(self).elems() == old(self).elems().update(row as int, None),
                Err(e) => final(self).elems() == old(self).elems() && e == (if component_id
                    != old(self).info().type_id {
                    ColumnError::ColumnComponentTypeMismatch(old(self).info().type_id, component_id)
                } else if row >= old(self).elems().len() {
                    ColumnError::ColumnGivenRowOutOfBounds(row)
                } else {
                    ColumnError::ColumnRowNotExistant(row)
                }),
            },
    {
        if self.element_info.type_id != component_id {
            return Err(ColumnError::ColumnComponentTypeMismatch(self.element_info.type_id, component_id));
        }
        if row >= self.count {
            return Err(ColumnError::ColumnGivenRowOutOfBounds(row));
        }
        self.get_raw_component(row)
    }

    /// Checks that the column holds values of type `component_id` and has a row `row`.
    pub fn is_valid(&mut self, component_id: TypeKey, row: u32) -> (r: Result<(), ColumnError>)
        requires
            old(self).wf(),
        ensures
            *final(self) == *old(self),
            r == (if component_id != old(self).info().type_id {
                Err::<(), ColumnError>(ColumnError::ColumnComponentTypeMismatch(old(self).info().type_id, component_id))
            } else if old(self).elems().len() <= row {
                Err::<(), ColumnError>(ColumnError::ColumnRowNotExistant(row))
            } else {
                Ok::<(), ColumnError>(())
            }),
    {
        if self.element_info.type_id != component_id {
            return Err(ColumnError::ColumnComponentTypeMismatch(self.element_info.type_id, component_id));
        }
        if self.count <= row {
            return Err(ColumnError::ColumnRowNotExistant(row));
        }
        Ok(())
    }
}

} // verus!
