//! Errors reported by the store.
use vstd::prelude::*;
use crate::types::{ArchetypeId, EntityId, TypeKey};

verus! {

/// Errors of the entity–component store.
#[derive(Debug)]
pub enum ECSError {
    ArchetypeNotFound(ArchetypeId),
    ComponentExistInArchetype(TypeKey, ArchetypeId),
    ComponentAbscentFromArchetype(TypeKey, ArchetypeId),
    /// (archetype, column index, column type, component type)
    ColumnComponentTypeMismatch(ArchetypeId, u32, TypeKey, TypeKey),
    /// (archetype, bundle size, archetype column count)
    BundleArchetypeSizeMismatch(ArchetypeId, u32, u32),
    InvalidEntityId(EntityId),
    /// (archetype, column index, row)
    ColumnRowNotExistant(ArchetypeId, u32, u32),
    ArchetypeRowNotExistant(ArchetypeId, u32),
    ComponentNotYetRegistered(TypeKey),
}

/// Errors of a single column, which does not know its archetype.
#[derive(Debug)]
pub enum ColumnError {
    /// (column type, component type)
    ColumnComponentTypeMismatch(TypeKey, TypeKey),
    ColumnRowNotExistant(u32),
    ColumnGivenRowOutOfBounds(u32),
}

/// The store-level error for a column error raised by column `column_idx` of archetype `id`.
pub open spec fn spec_column_error(e: ColumnError, id: ArchetypeId, column_idx: u32) -> ECSError {
    match e {
        ColumnError::ColumnComponentTypeMismatch(col_t, comp_t) => ECSError::ColumnComponentTypeMismatch(
            id,
            column_idx,
            col_t,
            comp_t,
        ),
        ColumnError::ColumnRowNotExistant(row) => ECSError::ColumnRowNotExistant(id, column_idx, row),
        ColumnError::ColumnGivenRowOutOfBounds(row) => ECSError::ColumnRowNotExistant(
            id,
            column_idx,
            row,
        ),
    }
}

/// Turns a column error into the store-level error, naming the archetype and column.
pub fn column_error(e: ColumnError, id: ArchetypeId, column_idx: u32) -> (r: ECSError)
    ensures
        r == spec_column_error(e, id, column_idx),
{
    match e {
        ColumnError::ColumnComponentTypeMismatch(col_t, comp_t) => ECSError::ColumnComponentTypeMismatch(
            id,
            column_idx,
            col_t,
            comp_t,
        ),
        ColumnError::ColumnRowNotExistant(row) => ECSError::ColumnRowNotExistant(id, column_idx, row),
        ColumnError::ColumnGivenRowOutOfBounds(row) => ECSError::ColumnRowNotExistant(
            id,
            column_idx,
            row,
        ),
    }
}

/// Maps the error of a column result as [`column_error`] does.
pub fn map_ecs_err<T>(r: Result<T, ColumnError>, id: ArchetypeId, column_idx: u32) -> (out: Result<T, ECSError>)
    ensures
        match r {
            Ok(v) => out == Ok::<T, ECSError>(v),
            Err(e) => out == Err::<T, ECSError>(spec_column_error(e, id, column_idx)),
        },
{
    match r {
        Ok(v) => Ok(v),
        Err(e) => Err(column_error(e, id, column_idx)),
    }
}

} // verus!
