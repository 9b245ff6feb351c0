use paddy_ecs::archetype::{ArchetypeId, ArchetypeRow, Archetypes};
use paddy_ecs::blob_vec::BlobVec;
use paddy_ecs::bundle::{BundleId, BundleInfo, Bundles};
use paddy_ecs::component::{
    array_layout, padding_needed_for, ComponentDescriptor, ComponentId, ComponentInfo, Components, Layout, StorageType,
};
use paddy_ecs::entity::{Entities, Entity};
use paddy_ecs::sparse_set::{ComponentSparseSet, SparseArray, SparseSet, SparseSetIndex};
use paddy_ecs::borrow::AtomicBorrow;
use paddy_ecs::table::{Column, Table, TableId, TableRow, Tables};
use paddy_ecs::tick::{ComponentTicks, Tick, CHECK_TICK_THRESHOLD, MAX_CHANGE_AGE};

fn desc(name: &str, storage: StorageType, key: u64, size: usize) -> ComponentDescriptor {
    ComponentDescriptor::new(name.to_string(), storage, Some(key), Layout::new(size, 1), false)
}

#[test]
fn max_change_age_value() {
    assert_eq!(CHECK_TICK_THRESHOLD, 518_400_000);
    assert_eq!(MAX_CHANGE_AGE, u32::MAX - (2 * CHECK_TICK_THRESHOLD - 1));
    assert_eq!(MAX_CHANGE_AGE, 3_258_167_296);
}

#[test]
fn tick_relative_to_wraps() {
    assert_eq!(Tick::new(10).relative_to(Tick::new(4)).get(), 6);
    assert_eq!(Tick::new(4).relative_to(Tick::new(10)).get(), u32::MAX - 5);
}

#[test]
fn tick_newer_than_compares_ages() {
    let stamp = Tick::new(8);
    assert!(stamp.is_newer_than(Tick::new(5), Tick::new(10)));
    assert!(!stamp.is_newer_than(Tick::new(9), Tick::new(10)));
    assert!(!Tick::new(5).is_newer_than(Tick::new(5), Tick::new(10)));
    let ticks = ComponentTicks::new(Tick::new(8));
    assert!(ticks.is_added(Tick::new(5), Tick::new(10)));
    assert!(ticks.is_changed(Tick::new(5), Tick::new(10)));
}

#[test]
fn check_tick_clamps_old_ticks() {
    let mut old = Tick::new(0);
    let now = Tick::new(u32::MAX);
    assert!(old.check_tick(now));
    assert_eq!(old.get(), u32::MAX - MAX_CHANGE_AGE);
    assert_eq!(now.relative_to(old).get(), MAX_CHANGE_AGE);
    let mut recent = Tick::new(100);
    assert!(!recent.check_tick(Tick::new(200)));
    assert_eq!(recent.get(), 100);
}

#[test]
fn component_ticks_set_changed_keeps_added() {
    let mut ticks = ComponentTicks::new(Tick::new(3));
    ticks.set_changed(Tick::new(9));
    assert_eq!(ticks.added_tick().get(), 3);
    assert_eq!(ticks.last_changed_tick().get(), 9);
}

#[test]
fn padding_and_array_layout() {
    assert_eq!(padding_needed_for(&Layout::new(5, 4), 4), 3);
    assert_eq!(padding_needed_for(&Layout::new(8, 4), 4), 0);
    let l = array_layout(&Layout::new(6, 4), 3).unwrap();
    assert_eq!(l.size(), 24);
    assert_eq!(l.align(), 4);
    assert!(array_layout(&Layout::new(usize::MAX / 2, 1), 3).is_none());
}

#[test]
fn entity_bits_round_trip() {
    let e = Entity::from_raw_and_generation(7, 3);
    let bits = e.to_bits();
    assert_eq!(bits, (3u64 << 32) | 7);
    assert_eq!(Entity::from_bits(bits), Some(e));
    assert_eq!(Entity::from_bits(5), None);
    assert_eq!(Entity::from_raw(4).generation(), 1);
    assert_eq!(Entity::placeholder().index(), u32::MAX);
}

#[test]
fn reserve_then_flush_materialises_once() {
    let mut entities = Entities::new();
    let e = entities.reserve_entity();
    assert!(entities.needs_flush());
    let flushed = entities.flush();
    assert_eq!(flushed, vec![e]);
    assert!(!entities.needs_flush());
    assert_eq!(entities.len(), 1);
}

#[test]
fn free_and_allocate_reuse_index() {
    let mut entities = Entities::new();
    let e = entities.allocate();
    assert_eq!(e.index(), 0);
    assert!(entities.free(e).is_err());
    assert!(entities.is_empty() == false);
    let reused = entities.allocate();
    assert_eq!(reused.index(), 1);
}

#[test]
fn blob_vec_push_replace_swap_remove() {
    let mut blob = BlobVec::new(Layout::new(2, 1), 0);
    blob.push(vec![1, 2]);
    blob.push(vec![3, 4]);
    blob.push(vec![5, 6]);
    assert_eq!(blob.len(), 3);
    assert!(blob.capacity() >= 3);
    let old = blob.replace_unchecked(0, vec![9, 9]);
    assert_eq!(old, vec![1, 2]);
    let removed = blob.swap_remove_and_forget_unchecked(0);
    assert_eq!(removed, vec![9, 9]);
    assert_eq!(blob.get_unchecked(0), &vec![5, 6]);
    assert_eq!(blob.len(), 2);
    blob.clear();
    assert!(blob.is_empty());
}

#[test]
fn blob_vec_zero_sized_has_unbounded_capacity() {
    let blob = BlobVec::new(Layout::new(0, 1), 0);
    assert_eq!(blob.capacity(), usize::MAX);
}

#[test]
fn blob_vec_reserve_doubles() {
    let mut blob = BlobVec::new(Layout::new(1, 1), 4);
    for i in 0..4u8 {
        blob.push(vec![i]);
    }
    blob.reserve(1);
    assert_eq!(blob.capacity(), 8);
    blob.reserve_exact(10);
    assert_eq!(blob.capacity(), 14);
}

#[test]
fn column_initialize_and_replace() {
    let mut col = Column::with_capacity(Layout::new(1, 1), 0);
    col.push_uninit();
    col.initialize(TableRow(0), vec![7], Tick::new(3));
    assert_eq!(col.get_data(TableRow(0)), Some(&vec![7]));
    let old = col.replace(TableRow(0), vec![8], Tick::new(5));
    assert_eq!(old, vec![7]);
    let ticks = col.get_ticks(TableRow(0));
    assert_eq!(ticks.added.get(), 3);
    assert_eq!(ticks.changed.get(), 5);
    assert_eq!(col.get_data(TableRow(1)), None);
}

#[test]
fn tables_are_deduplicated_by_ids() {
    let mut components = Components::new();
    let (a, _) = components.init_component(desc("A", StorageType::Table, 1, 2));
    let (b, _) = components.init_component(desc("B", StorageType::Table, 2, 4));
    let mut tables = Tables::new();
    let t1 = tables.get_id_or_insert(&vec![a, b], &components);
    let t2 = tables.get_id_or_insert(&vec![a, b], &components);
    assert_eq!(t1, t2);
    assert_eq!(t1, TableId(1));
    assert_eq!(tables.len(), 2);
    let table: &Table = tables.get(t1).unwrap();
    assert_eq!(table.component_count(), 2);
    assert_eq!(table.get_column(b).unwrap().item_layout().size(), 4);
}

#[test]
fn table_allocate_and_swap_remove() {
    let mut table = Table::new(vec![ComponentId(0)], vec![Layout::new(1, 1)]);
    let e0 = Entity::from_raw(0);
    let e1 = Entity::from_raw(1);
    let r0 = table.allocate(e0);
    let r1 = table.allocate(e1);
    table.set_value(0, r0, vec![10], ComponentTicks::new(Tick::new(1)));
    table.set_value(0, r1, vec![11], ComponentTicks::new(Tick::new(1)));
    assert_eq!(table.swap_remove(r0), Some(e1));
    assert_eq!(table.entities(), &vec![e1]);
    assert_eq!(table.get_value(0, TableRow(0)), &vec![11]);
}

#[test]
fn sparse_array_insert_get_remove() {
    let mut array: SparseArray<u32> = SparseArray::new();
    array.insert(5, 50);
    assert_eq!(array.get(5), Some(&50));
    assert!(!array.contains(4));
    assert_eq!(array.remove(5), Some(50));
    assert_eq!(array.get(5), None);
}

#[test]
fn sparse_set_keeps_values_dense() {
    let mut set: SparseSet<u32> = SparseSet::new();
    set.insert(7, 70);
    set.insert(2, 20);
    set.insert(9, 90);
    assert_eq!(set.get(2), Some(&20));
    assert_eq!(set.remove(7), Some(70));
    assert_eq!(set.values(), &vec![90, 20]);
    assert_eq!(set.indices(), &vec![9, 2]);
    assert_eq!(set.get(9), Some(&90));
    assert!(!set.contains(7));
    set.insert(2, 21);
    assert_eq!(set.get(2), Some(&21));
    assert_eq!(set.len(), 2);
}

#[test]
fn component_sparse_set_insert_remove() {
    let info = ComponentInfo::new(ComponentId(0), desc("S", StorageType::SparseSet, 1, 1));
    let mut set = ComponentSparseSet::new(&info, 0);
    let a = Entity::from_raw(3);
    let b = Entity::from_raw(8);
    set.insert(a, vec![1], Tick::new(0));
    set.insert(b, vec![2], Tick::new(0));
    assert!(set.contains(a));
    assert_eq!(set.get(b), Some(&vec![2]));
    assert!(set.remove(a));
    assert!(!set.contains(a));
    assert_eq!(set.get(b), Some(&vec![2]));
    assert_eq!(set.remove_and_forget(b), Some(vec![2]));
    assert!(set.is_empty());
    assert!(!set.remove(b));
}

#[test]
fn components_register_once_per_key() {
    let mut components = Components::new();
    let (a, new_a) = components.init_component(desc("A", StorageType::Table, 1, 2));
    let (again, new_again) = components.init_component(desc("A", StorageType::Table, 1, 2));
    assert!(new_a);
    assert!(!new_again);
    assert_eq!(a, again);
    assert_eq!(components.get_id(1), Some(a));
    assert_eq!(components.get_id(2), None);
    assert_eq!(components.get_name(a), Some("A"));
    assert_eq!(components.len(), 1);
}

#[test]
fn bundle_info_reports_duplicates_by_name() {
    let mut components = Components::new();
    let (a, _) = components.init_component(desc("A", StorageType::Table, 1, 1));
    let (b, _) = components.init_component(desc("B", StorageType::Table, 2, 1));
    let ok = BundleInfo::new("(A, B)", &components, vec![a, b], BundleId(0)).unwrap();
    assert_eq!(ok.components(), &vec![a, b]);
    assert_eq!(ok.iter_components(), vec![a, b]);
    match BundleInfo::new("(A, B, A, B)", &components, vec![a, b, a, b], BundleId(1)) {
        Err(e) => {
            assert_eq!(e.names, "A, B");
            assert_eq!(e.duplicates, vec![a, b]);
        }
        Ok(_) => panic!("repeated components must be refused"),
    }
    let mut bundles = Bundles::new();
    let id = bundles.init_info("(A, B)", &components, vec![a, b]).ok().unwrap();
    let again = bundles.init_info("(A, B)", &components, vec![a, b]).ok().unwrap();
    assert_eq!(id, again);
    assert_eq!(bundles.len(), 1);
}

#[test]
fn archetypes_are_deduplicated() {
    let mut archetypes = Archetypes::new();
    let a = archetypes.get_id_or_insert(TableId(1), vec![ComponentId(0)], vec![ComponentId(1)]);
    let b = archetypes.get_id_or_insert(TableId(1), vec![ComponentId(0)], vec![ComponentId(1)]);
    assert_eq!(a, b);
    assert_eq!(a, ArchetypeId(1));
    let location = archetypes.allocate(a, Entity::from_raw(0), TableRow(0));
    assert_eq!(location.archetype_row, ArchetypeRow(0));
    assert_eq!(archetypes.get(a).unwrap().len(), 1);
    assert!(archetypes.get(a).unwrap().contains(ComponentId(1)));
    assert_eq!(archetypes.generation().0, ArchetypeId(2));
}

#[test]
fn atomic_borrow_excludes_unique_and_shared() {
    let mut flag = AtomicBorrow::new();
    assert!(flag.borrow());
    assert!(!flag.borrow_mut());
    flag.release();
    assert!(flag.borrow_mut());
    assert!(!flag.borrow());
    flag.release_mut();
    assert!(flag.borrow());
}

#[test]
fn sparse_set_index_round_trips() {
    assert_eq!(ComponentId(4).sparse_set_index(), 4);
    assert_eq!(<ComponentId as SparseSetIndex>::get_sparse_set_index(6), ComponentId(6));
    assert_eq!(BundleId(3).sparse_set_index(), 3);
}

#[test]
fn stale_entity_does_not_remove_the_live_value() {
    let info = ComponentInfo::new(ComponentId(0), desc("S", StorageType::SparseSet, 1, 1));
    let mut set = ComponentSparseSet::new(&info, 0);
    let live = Entity::from_raw_and_generation(0, 2);
    let stale = Entity::from_raw_and_generation(0, 1);
    set.insert(live, vec![5], Tick::new(3));
    assert!(!set.contains(stale));
    assert!(!set.remove(stale));
    assert_eq!(set.remove_and_forget(stale), None);
    assert_eq!(set.get(live), Some(&vec![5]));
    assert_eq!(set.len(), 1);
    set.insert(live, vec![6], Tick::new(9));
    let ticks = set.get_ticks(live).unwrap();
    assert_eq!(ticks.added.get(), 3);
    assert_eq!(ticks.changed.get(), 9);
}
