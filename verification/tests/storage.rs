use amar_engine::archetype::Archetype;
use amar_engine::bundle::Bundle;
use amar_engine::column::Column;
use amar_engine::error::{column_error, ColumnError, ECSError};
use amar_engine::search::{binary_search, contains_u32, copy_keys, keys_equal};
use amar_engine::types::{ArchetypeId, ComponentInfo, RawComponent};

const A: u64 = 3;
const B: u64 = 5;
const C: u64 = 8;

fn infos(keys: &[u64]) -> Vec<ComponentInfo> {
    keys.iter().map(|k| ComponentInfo::new(*k)).collect()
}

#[test]
fn column_insert_get_delete() {
    let mut col: Column<i64> = Column::new(ComponentInfo::new(A));
    assert_eq!(col.element_info().type_id(), A);
    assert_eq!(col.count(), 0);
    col.insert(RawComponent::new(A, 10), 0).unwrap();
    col.insert(RawComponent::new(A, 11), 1).unwrap();
    assert_eq!(col.count(), 2);
    assert_eq!(col.get(1), Some(&11));
    assert!(matches!(col.insert(RawComponent::new(B, 1), 0), Err(ColumnError::ColumnComponentTypeMismatch(A, B))));
    assert!(matches!(col.insert(RawComponent::new(A, 1), 5), Err(ColumnError::ColumnGivenRowOutOfBounds(5))));
    col.insert(RawComponent::new(A, 12), 0).unwrap();
    assert_eq!(col.get(0), Some(&12));
    *col.get_mut(0).unwrap() = 13;
    let taken = col.delete(A, 0).unwrap();
    assert_eq!(taken.value, 13);
    assert_eq!(col.get(0), None);
    assert!(matches!(col.delete(A, 0), Err(ColumnError::ColumnRowNotExistant(0))));
    assert!(matches!(col.delete(A, 9), Err(ColumnError::ColumnGivenRowOutOfBounds(9))));
    assert!(matches!(col.delete(B, 1), Err(ColumnError::ColumnComponentTypeMismatch(A, B))));
    assert!(col.is_valid(A, 1).is_ok());
    assert!(matches!(col.is_valid(A, 2), Err(ColumnError::ColumnRowNotExistant(2))));
    assert!(matches!(col.is_valid(C, 0), Err(ColumnError::ColumnComponentTypeMismatch(A, C))));
    let raw = col.get_raw_component(1).unwrap();
    assert_eq!(raw.into_cast(A), 11);
    assert!(col.get_raw_component(1).is_err());
    col.insert_raw_component(RawComponent::new(C, 20), 2).unwrap();
    assert_eq!(col.get(2), Some(&20));
}

#[test]
fn column_errors_name_the_archetype() {
    let e = column_error(ColumnError::ColumnGivenRowOutOfBounds(4), ArchetypeId(2), 1);
    assert!(matches!(e, ECSError::ColumnRowNotExistant(ArchetypeId(2), 1, 4)));
    let e = column_error(ColumnError::ColumnComponentTypeMismatch(A, B), ArchetypeId(0), 3);
    assert!(matches!(e, ECSError::ColumnComponentTypeMismatch(ArchetypeId(0), 3, A, B)));
}

#[test]
fn archetype_rows_are_reused() {
    let mut arch: Archetype<i64> = Archetype::new(ArchetypeId(0), infos(&[A, C]));
    let r0 = arch.insert_row_ptr(vec![RawComponent::new(A, 1), RawComponent::new(C, 2)]).unwrap();
    let r1 = arch.insert_row_ptr(vec![RawComponent::new(A, 3), RawComponent::new(C, 4)]).unwrap();
    assert_eq!((r0, r1), (0, 1));
    assert_eq!(arch.get_component(1, C).unwrap(), &4);
    let removed = arch.remove_raw_component(0).unwrap();
    assert_eq!(removed.len(), 2);
    assert_eq!(removed[0].value, 1);
    assert_eq!(removed[1].value, 2);
    assert!(matches!(arch.get_component(0, A), Err(ECSError::ArchetypeRowNotExistant(ArchetypeId(0), 0))));
    assert!(matches!(arch.remove_raw_component(0), Err(ECSError::ArchetypeRowNotExistant(_, 0))));
    let r2 = arch.insert_row_ptr(vec![RawComponent::new(A, 5), RawComponent::new(C, 6)]).unwrap();
    assert_eq!(r2, 0);
    assert_eq!(arch.get_component(0, A).unwrap(), &5);
    assert_eq!(arch.get_component(1, A).unwrap(), &3);
    *arch.get_component_mut(1, A).unwrap() = 30;
    assert_eq!(arch.get_component(1, A).unwrap(), &30);
    assert!(matches!(
        arch.get_component(1, B),
        Err(ECSError::ComponentAbscentFromArchetype(B, ArchetypeId(0)))
    ));
}

#[test]
fn archetype_neighbours() {
    let arch: Archetype<i64> = Archetype::new(ArchetypeId(0), infos(&[A, C]));
    let (added, p) = arch.new_from_add(ArchetypeId(1), ComponentInfo::new(B)).unwrap();
    assert_eq!(p, 1);
    assert_eq!(added.component_ids, vec![A, B, C]);
    assert!(matches!(
        arch.new_from_add(ArchetypeId(1), ComponentInfo::new(A)),
        Err(ECSError::ComponentExistInArchetype(A, ArchetypeId(0)))
    ));
    let (removed, q) = added.new_from_delete(ArchetypeId(2), ComponentInfo::new(B)).unwrap();
    assert_eq!(q, 1);
    assert_eq!(removed.component_ids, vec![A, C]);
    assert!(matches!(
        arch.new_from_delete(ArchetypeId(2), ComponentInfo::new(B)),
        Err(ECSError::ComponentAbscentFromArchetype(B, ArchetypeId(0)))
    ));
}

#[test]
fn archetype_sorts_its_types() {
    let arch: Archetype<i64> = Archetype::new(ArchetypeId(4), infos(&[C, A, B]));
    assert_eq!(arch.component_ids, vec![A, B, C]);
    assert_eq!(arch.length, 3);
}

#[test]
fn bundle_sorts_components() {
    let b = Bundle::new(vec![RawComponent::new(C, 'c'), RawComponent::new(A, 'a'), RawComponent::new(B, 'b')])
        .unwrap();
    assert_eq!(b.component_ids(), vec![A, B, C]);
    let infos: Vec<u64> = b.component_infos().iter().map(|i| i.type_id).collect();
    assert_eq!(infos, vec![A, B, C]);
    let values: Vec<char> = b.into_components().into_iter().map(|r| r.value).collect();
    assert_eq!(values, vec!['a', 'b', 'c']);
}

#[test]
fn search_helpers() {
    let v = vec![1u64, 4, 9];
    assert_eq!(binary_search(&v, 4), Ok(1));
    assert_eq!(binary_search(&v, 5), Err(2));
    assert_eq!(binary_search(&v, 0), Err(0));
    assert_eq!(binary_search(&v, 10), Err(3));
    assert!(contains_u32(&vec![2u32, 3], 3));
    assert!(!contains_u32(&vec![2u32, 3], 4));
    assert_eq!(copy_keys(&v), v);
    assert!(keys_equal(&v, &vec![1, 4, 9]));
    assert!(!keys_equal(&v, &vec![1, 4]));
    assert!(!keys_equal(&v, &vec![1, 4, 8]));
}
