use amar_engine::label_index::{EntityId, LabelIndex};
use amar_engine::registry::{EntityIdAllocator, FetchEntity, FetchRes, ResourceRegistry};
use amar_engine::registry_view::{is_protected, EVENT_LOOP_KEY, GLOBAL_STATE_KEY, INPUT_HANDLER_KEY};
use amar_engine::sys_runner::SysRunner;

const MESH: u64 = 1;
const TEXTURE: u64 = 2;
const CLOCK: u64 = 20;
const SCORE: u64 = 21;

#[test]
fn allocator_counts_up() {
    let mut ids = EntityIdAllocator::default();
    assert_eq!(ids.next(), EntityId(0));
    assert_eq!(ids.next(), EntityId(1));
    assert_eq!(ids.0, 2);
}

#[test]
fn spawn_get_and_despawn_entities() {
    let mut reg: ResourceRegistry<String> = ResourceRegistry::new();
    let a = reg.spawn(MESH, None, "cube".to_string());
    let b = reg.spawn(MESH, Some("hero"), "man".to_string());
    assert_eq!(a, EntityId(0));
    assert_eq!(b, EntityId(1));
    assert_eq!(reg.get(MESH, a).unwrap(), "cube");
    assert!(reg.get(TEXTURE, a).is_none());
    *reg.get_mut(MESH, b).unwrap() = "woman".to_string();
    assert_eq!(reg.get(MESH, b).unwrap(), "woman");
    assert_eq!(reg.despawn(MESH, a), Some("cube".to_string()));
    assert_eq!(reg.despawn(MESH, a), None);
    assert!(reg.get(MESH, a).is_none());
    assert_eq!(reg.despawn(TEXTURE, b), None);
    assert_eq!(reg.get(MESH, b).unwrap(), "woman");
    // identifiers are not handed out twice
    assert_eq!(reg.spawn(MESH, None, "x".to_string()), EntityId(2));
}

#[test]
fn labels_find_entities_in_order() {
    let mut reg: ResourceRegistry<u32> = ResourceRegistry::new();
    let a = reg.spawn(MESH, Some("enemy"), 10);
    reg.spawn(MESH, Some("friend"), 20);
    let c = reg.spawn(MESH, Some("enemy"), 30);
    reg.spawn(TEXTURE, Some("enemy"), 40);
    let enemies: Vec<u32> = reg.get_by_label(MESH, "enemy").into_iter().copied().collect();
    assert_eq!(enemies, vec![10, 30]);
    assert_eq!(reg.get_by_label(TEXTURE, "enemy"), vec![&40]);
    assert!(reg.get_by_label(MESH, "nobody").is_empty());
    reg.despawn(MESH, a);
    assert_eq!(reg.get_by_label(MESH, "enemy"), vec![&30]);
    reg.despawn(MESH, c);
    assert!(reg.get_by_label(MESH, "enemy").is_empty());
}

#[test]
fn registry_resources_keep_the_first_insertion() {
    let mut reg: ResourceRegistry<u32> = ResourceRegistry::new();
    assert!(reg.get_res(CLOCK).is_none());
    reg.insert_res(CLOCK, 1);
    reg.insert_res(CLOCK, 2);
    assert_eq!(reg.get_res(CLOCK), Some(&1));
    *reg.get_res_mut(CLOCK).unwrap() = 5;
    assert_eq!(reg.get_res(CLOCK), Some(&5));
    assert_eq!(reg.remove_res(CLOCK), Some(5));
    assert_eq!(reg.remove_res(CLOCK), None);
    reg.insert_res(CLOCK, 7);
    assert_eq!(reg.get_res(CLOCK), Some(&7));
}

#[test]
fn fetch_res_takes_and_puts_back() {
    let mut reg: ResourceRegistry<u32> = ResourceRegistry::new();
    reg.insert_res(CLOCK, 1);
    reg.insert_res(SCORE, 2);
    let fetch = FetchRes::new(vec![SCORE, CLOCK]);
    let vals = fetch.take(&mut reg).unwrap();
    assert_eq!(vals, vec![2, 1]);
    assert!(reg.get_res(CLOCK).is_none());
    fetch.put_back(vals, &mut reg);
    assert_eq!(reg.get_res(CLOCK), Some(&1));
    assert_eq!(reg.get_res(SCORE), Some(&2));
}

#[test]
fn fetch_res_loses_what_was_taken_before_a_missing_one() {
    let mut reg: ResourceRegistry<u32> = ResourceRegistry::new();
    reg.insert_res(CLOCK, 1);
    let fetch = FetchRes::new(vec![CLOCK, SCORE]);
    assert!(fetch.take(&mut reg).is_none());
    assert!(reg.get_res(CLOCK).is_none());
}

#[test]
fn fetch_res_with_repeated_type_fails() {
    let mut reg: ResourceRegistry<u32> = ResourceRegistry::new();
    reg.insert_res(CLOCK, 1);
    let fetch = FetchRes::new(vec![CLOCK, CLOCK]);
    assert!(fetch.take(&mut reg).is_none());
}

#[test]
fn fetch_entity_takes_and_puts_back() {
    let mut reg: ResourceRegistry<u32> = ResourceRegistry::new();
    let a = reg.spawn(MESH, None, 3);
    let b = reg.spawn(TEXTURE, None, 4);
    let fetch = FetchEntity::new(vec![MESH, TEXTURE]);
    let mut maps = fetch.take(&mut reg).unwrap();
    assert_eq!(maps.len(), 2);
    assert_eq!(maps[0].get(&a.0), Some(&3));
    maps[1].insert(b.0, 40);
    assert!(reg.get(MESH, a).is_none());
    fetch.put_back(maps, &mut reg);
    assert_eq!(reg.get(MESH, a), Some(&3));
    assert_eq!(reg.get(TEXTURE, b), Some(&40));
    assert!(FetchEntity::new(vec![MESH, CLOCK]).take(&mut reg).is_none());
    assert!(reg.get(MESH, a).is_none());
}

#[test]
fn with_res_mut_lends_resources() {
    let mut reg: ResourceRegistry<u32> = ResourceRegistry::new();
    reg.insert_res(CLOCK, 1);
    let fetch = FetchRes::new(vec![CLOCK]);
    let r = reg.with_res_mut(&fetch, |vals, inner| {
        vals[0] += 10;
        inner.get_res(CLOCK).is_none()
    });
    assert_eq!(r, Some(true));
    assert_eq!(reg.get_res(CLOCK), Some(&11));
    let missing = FetchRes::new(vec![SCORE]);
    assert_eq!(reg.with_res_mut(&missing, |_, _| 0), None);
}

#[test]
fn with_maps_mut_lends_maps() {
    let mut reg: ResourceRegistry<u32> = ResourceRegistry::new();
    let a = reg.spawn(MESH, None, 1);
    let fetch = FetchEntity::new(vec![MESH]);
    let r = reg.with_maps_mut(&fetch, |maps, _| {
        *maps[0].get_mut(&a.0).unwrap() = 2;
        maps[0].len()
    });
    assert_eq!(r, Some(1));
    assert_eq!(reg.get(MESH, a), Some(&2));
    assert_eq!(reg.with_maps_mut(&FetchEntity::new(vec![TEXTURE]), |_, _| 0), None);
}

#[test]
fn protected_types() {
    assert!(is_protected(INPUT_HANDLER_KEY));
    assert!(is_protected(EVENT_LOOP_KEY));
    assert!(is_protected(GLOBAL_STATE_KEY));
    assert!(!is_protected(CLOCK));
}

#[test]
fn view_forwards_to_the_registry() {
    let mut reg: ResourceRegistry<u32> = ResourceRegistry::new();
    reg.insert_res(GLOBAL_STATE_KEY, 100);
    {
        let mut view = reg.view();
        let e = view.spawn(MESH, Some("tree"), 5);
        assert_eq!(view.get(MESH, e), Some(&5));
        *view.get_mut(MESH, e).unwrap() = 6;
        assert_eq!(view.get_by_label(MESH, "tree"), vec![&6]);
        view.insert_res(CLOCK, 3);
        assert_eq!(view.get_res(CLOCK), Some(&3));
        *view.get_res_mut(CLOCK).unwrap() = 4;
        assert_eq!(view.remove_res(CLOCK), Some(4));
        assert_eq!(*view.glb(), 100);
        *view.glb_mut() = 101;
        assert_eq!(view.despawn(MESH, e), Some(6));
    }
    assert_eq!(reg.get_res(GLOBAL_STATE_KEY), Some(&101));
    assert!(reg.get_res(CLOCK).is_none());
}

#[test]
fn sys_runner_runs_systems() {
    let mut reg: ResourceRegistry<u32> = ResourceRegistry::new();
    reg.insert_res(CLOCK, 1);
    reg.insert_res(GLOBAL_STATE_KEY, 7);
    let e = reg.spawn(MESH, None, 50);
    let res = FetchRes::new(vec![CLOCK]);
    let ents = FetchEntity::new(vec![MESH]);
    let mut runner = SysRunner::new(&mut reg);
    assert_eq!(*runner.glb(), 7);
    *runner.glb_mut() = 8;
    let r = runner.exec_res(&res, |vals, view| {
        vals[0] += 1;
        view.get_res(CLOCK).is_none()
    });
    assert_eq!(r, Some(true));
    let r = runner.exec_maps(&ents, |maps, _view| {
        *maps[0].get_mut(&e.0).unwrap() += 1;
        maps[0].len()
    });
    assert_eq!(r, Some(1));
    let r = runner.exec(&ents, &res, |maps, vals, _view| maps[0][&e.0] + vals[0]);
    assert_eq!(r, Some(53));
    assert_eq!(runner.exec_res(&FetchRes::new(vec![SCORE]), |_, _| 0), None);
    assert_eq!(reg.get_res(CLOCK), Some(&2));
    assert_eq!(reg.get(MESH, e), Some(&51));
    assert_eq!(reg.get_res(GLOBAL_STATE_KEY), Some(&8));
}

#[test]
fn sys_runner_exec_loses_maps_when_a_resource_is_missing() {
    let mut reg: ResourceRegistry<u32> = ResourceRegistry::new();
    let e = reg.spawn(MESH, None, 50);
    let mut runner = SysRunner::new(&mut reg);
    let r = runner.exec(&FetchEntity::new(vec![MESH]), &FetchRes::new(vec![CLOCK]), |_, _, _| 0);
    assert_eq!(r, None);
    assert!(reg.get(MESH, e).is_none());
}

#[test]
fn label_index_tracks_labels() {
    let mut labels = LabelIndex::new();
    labels.insert(MESH, "a", EntityId(1));
    labels.insert(MESH, "a", EntityId(2));
    labels.insert(TEXTURE, "a", EntityId(3));
    assert_eq!(labels.get(MESH, "a"), &[EntityId(1), EntityId(2)]);
    assert_eq!(labels.get(TEXTURE, "a"), &[EntityId(3)]);
    assert!(labels.get(MESH, "b").is_empty());
    labels.remove(EntityId(1));
    assert_eq!(labels.get(MESH, "a"), &[EntityId(2)]);
    labels.remove(EntityId(2));
    assert!(labels.get(MESH, "a").is_empty());
    labels.remove(EntityId(9));
    assert_eq!(labels.get(TEXTURE, "a"), &[EntityId(3)]);
}

#[test]
fn a_label_never_lists_an_entity_twice() {
    let mut reg: ResourceRegistry<u32> = ResourceRegistry::new();
    let a = reg.spawn(MESH, Some("rock"), 1);
    reg.spawn(MESH, Some("rock"), 2);
    reg.despawn(MESH, a);
    reg.spawn(MESH, Some("rock"), 3);
    reg.spawn(MESH, Some("rock"), 4);
    assert_eq!(reg.get_by_label(MESH, "rock"), vec![&2, &3, &4]);
}

#[test]
fn a_resource_the_system_inserts_meanwhile_is_kept() {
    let mut reg: ResourceRegistry<u32> = ResourceRegistry::new();
    reg.insert_res(CLOCK, 1);
    let fetch = FetchRes::new(vec![CLOCK]);
    let mut runner = SysRunner::new(&mut reg);
    let r = runner.exec_res(&fetch, |vals, mut view| {
        vals[0] = 5;
        view.insert_res(CLOCK, 99);
        view.insert_res(SCORE, 7);
    });
    assert_eq!(r, Some(()));
    assert_eq!(reg.get_res(CLOCK), Some(&99));
    assert_eq!(reg.get_res(SCORE), Some(&7));
}

#[test]
fn with_res_mut_puts_back_what_the_system_left() {
    let mut reg: ResourceRegistry<u32> = ResourceRegistry::new();
    reg.insert_res(CLOCK, 1);
    reg.insert_res(SCORE, 2);
    let fetch = FetchRes::new(vec![CLOCK, SCORE]);
    let r = reg.with_res_mut(&fetch, |vals, inner| {
        vals.swap(0, 1);
        inner.insert_res(TEXTURE, 3);
        vals.len()
    });
    assert_eq!(r, Some(2));
    assert_eq!(reg.get_res(CLOCK), Some(&2));
    assert_eq!(reg.get_res(SCORE), Some(&1));
    assert_eq!(reg.get_res(TEXTURE), Some(&3));
}
