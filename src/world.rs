use vstd::prelude::*;

use crate::archetype::{ArchetypeEntity, ArchetypeId, ArchetypeView, Archetypes};
use crate::bundle::{BundleId, statuses, descriptor_fits, bundle_fits, Bundle, DuplicateComponents, reaches, of_class, lemma_edges_bundles_grow, extends, classes_ok, edges_ok, lemma_edges_components_grow, lemma_same_graph, same_graph, tables_linked, Bundles};
use crate::component::{ComponentDescriptor, ComponentId, ComponentRecord, Components, StorageType};
use crate::entity::{lemma_flush_out, Entities, EntitiesView, Entity, EntityLocation, EntityMeta, NoSuchEntity};
use crate::blob_vec::swap_remove_seq;
use crate::archetype::ArchetypeRow;
use crate::sparse_set::{ComponentSparseSetView, SparseSets};
use crate::table::{TableView, Tables};
use crate::tick::{ComponentTicks, Tick};
use crate::table::TableRow;

verus! {

/// What spawning `e` with the components `ids` did to the counts: one more
/// member in its archetype and one more row in its table, every other
/// archetype and table as it was, one more value in the sparse set of each
/// of its sparse-class components, one more allocated entity.
pub open spec fn spawn_counts(before: WorldView, after: WorldView, e: Entity, ids: Seq<ComponentId>) -> bool {
    &&& place_counts(before, after, e, ids)
    &&& after.entities.len == before.entities.len + 1
}

/// What placing `e` with the components `ids` did to the counts: one more
/// member in its archetype and one more row in its table, every other
/// archetype and table as it was, one more value in the sparse set of each
/// of its sparse-class components.
pub open spec fn place_counts(before: WorldView, after: WorldView, e: Entity, ids: Seq<ComponentId>) -> bool {
    let a = after.loc(e).archetype_id.0 as int;
    let t = after.loc(e).table_id.0 as int;
    &&& forall|x: int| 0 <= x < after.archetypes.len() ==> #[trigger] after.archetype_len(x) == before.archetype_len(x) + if x == a { 1nat } else { 0nat }
    &&& forall|x: int| 0 <= x < after.tables.len() ==> #[trigger] after.table_len(x) == before.table_len(x) + if x == t { 1nat } else { 0nat }
    &&& forall|c: usize| #[trigger] before.sparse_sets.contains_key(c) ==> after.sparse_sets.contains_key(c)
        && after.sparse_sets[c].len() == before.sparse_sets[c].len() + if ids.contains(ComponentId(c)) { 1nat } else { 0nat }
    &&& before.archetypes.len() <= after.archetypes.len()
    &&& before.tables.len() <= after.tables.len()
    &&& forall|x: int| 0 <= x < before.archetypes.len() ==> (#[trigger] after.archetypes[x]).table_components == before.archetypes[x].table_components
        && after.archetypes[x].sparse_set_components == before.archetypes[x].sparse_set_components
        && after.archetypes[x].table_id == before.archetypes[x].table_id
    &&& after.loc(e).table_id == after.archetypes[a].table_id
    &&& 0 <= t < after.tables.len()
}

/// The number of entities whose components are exactly `ids`: the size of
/// the archetype that adding `ids` to the empty archetype reaches, zero
/// where there is no such archetype yet.
pub open spec fn bundle_archetype_len(w: WorldView, ids: Seq<ComponentId>) -> nat {
    if exists|a: int| 0 <= a < w.archetypes.len() && reaches(w.archetypes, w.components, 0, a, ids) {
        w.archetype_len(choose|a: int| 0 <= a < w.archetypes.len() && reaches(w.archetypes, w.components, 0, a, ids))
    } else {
        0
    }
}

/// Only one archetype has the components that adding `ids` to the empty
/// archetype gives.
proof fn lemma_reached_unique(w: WorldView, ids: Seq<ComponentId>, a: int, b: int)
    requires
        crate::archetype::archetypes_wf(w.archetypes),
        0 <= a < w.archetypes.len(),
        0 <= b < w.archetypes.len(),
        reaches(w.archetypes, w.components, 0, a, ids),
        reaches(w.archetypes, w.components, 0, b, ids),
    ensures
        a == b,
{
    crate::bundle::lemma_sorted_set_eq(w.archetypes[a].table_components, w.archetypes[b].table_components);
    crate::bundle::lemma_sorted_set_eq(w.archetypes[a].sparse_set_components, w.archetypes[b].sparse_set_components);
}

/// Each spawn of a bundle adds one entity to the archetype of exactly the
/// bundle's components: after `n` spawns it holds `n` more.
pub proof fn lemma_repeated_spawns(worlds: Seq<WorldView>, spawned: Seq<Entity>, ids: Seq<ComponentId>)
    requires
        worlds.len() == spawned.len() + 1,
        forall|i: int| 0 <= i < worlds.len() ==> crate::archetype::archetypes_wf(#[trigger] worlds[i].archetypes),
        forall|i: int| 0 <= i < spawned.len() ==> {
            &&& (#[trigger] worlds[i + 1]).components == worlds[i].components
            &&& worlds[i + 1].loc(spawned[i]).archetype_id.0 < worlds[i + 1].archetypes.len()
            &&& reaches(worlds[i + 1].archetypes, worlds[i + 1].components, 0, worlds[i + 1].loc(spawned[i]).archetype_id.0 as int, ids)
            &&& spawn_counts(worlds[i], worlds[i + 1], spawned[i], ids)
        },
    ensures
        bundle_archetype_len(worlds[spawned.len() as int], ids) == bundle_archetype_len(worlds[0], ids) + spawned.len(),
    decreases spawned.len(),
{
    let n = spawned.len();
    if n > 0 {
        lemma_repeated_spawns(worlds.drop_last(), spawned.drop_last(), ids);
        assert(worlds.drop_last()[n - 1] == worlds[n - 1]);
        assert(worlds.drop_last()[0] == worlds[0]);
        let w0 = worlds[n - 1];
        let w1 = worlds[n as int];
        assert(w1 == worlds[(n - 1) + 1]);
        let e = spawned[n - 1];
        let d = w1.loc(e).archetype_id.0 as int;
        assert(spawn_counts(w0, w1, e, ids));
        assert(crate::archetype::archetypes_wf(w1.archetypes));
        assert(w1.archetype_len(d) == w0.archetype_len(d) + 1);
        if exists|a: int| 0 <= a < w0.archetypes.len() && reaches(w0.archetypes, w0.components, 0, a, ids) {
            let a = choose|a: int| 0 <= a < w0.archetypes.len() && reaches(w0.archetypes, w0.components, 0, a, ids);
            assert(w1.archetypes[a].table_components == w0.archetypes[a].table_components);
            assert(w1.archetypes[0].table_components == w0.archetypes[0].table_components);
            assert(reaches(w1.archetypes, w1.components, 0, a, ids));
            lemma_reached_unique(w1, ids, a, d);
            let a1 = choose|a: int| 0 <= a < w1.archetypes.len() && reaches(w1.archetypes, w1.components, 0, a, ids);
            lemma_reached_unique(w1, ids, a1, d);
        } else {
            if d < w0.archetypes.len() {
                assert(w1.archetypes[d].table_components == w0.archetypes[d].table_components);
                assert(w1.archetypes[0].table_components == w0.archetypes[0].table_components);
                assert(reaches(w0.archetypes, w0.components, 0, d, ids));
            }
            let a1 = choose|a: int| 0 <= a < w1.archetypes.len() && reaches(w1.archetypes, w1.components, 0, a, ids);
            lemma_reached_unique(w1, ids, a1, d);
        }
    }
}


/// What taking the entity `e` out of its rows at `loc` did: one member less
/// in that archetype, one row less in that table, one value less in the
/// sparse set of each of the archetype's sparse-class components, no place
/// left that holds `e`, and the allocator as it was but for the locations
/// of the entities that moved.
pub open spec fn detach_counts(before: WorldView, after: WorldView, loc: EntityLocation, e: Entity) -> bool {
    let a = loc.archetype_id.0 as int;
    let t = loc.table_id.0 as int;
    &&& after.archetypes.len() == before.archetypes.len()
    &&& after.tables.len() == before.tables.len()
    &&& forall|x: int| 0 <= x < after.archetypes.len() ==> #[trigger] after.archetype_len(x) + if x == a { 1nat } else { 0nat } == before.archetype_len(x)
    &&& forall|x: int| 0 <= x < after.tables.len() ==> #[trigger] after.table_len(x) + if x == t { 1nat } else { 0nat } == before.table_len(x)
    &&& forall|c: usize| #[trigger] before.sparse_sets.contains_key(c) ==> after.sparse_sets.contains_key(c)
        && after.sparse_sets[c].len() + (if before.archetypes[a].sparse_set_components.contains(ComponentId(c)) { 1nat } else { 0nat })
        == before.sparse_sets[c].len()
    &&& same_graph(before.archetypes, after.archetypes)
    &&& after.components == before.components
    &&& after.bundles == before.bundles
    &&& after.change_tick == before.change_tick
    &&& after.archetype_component_count == before.archetype_component_count
    &&& after.entities.pending == before.entities.pending
    &&& after.entities.free_cursor == before.entities.free_cursor
    &&& after.entities.len == before.entities.len
    &&& after.entities.meta.len() == before.entities.meta.len()
    &&& after.entities.meta[e.index as int] == before.entities.meta[e.index as int]
    &&& forall|y: Entity| #[trigger] after.entities.contains(y) <==> before.entities.contains(y)
    &&& room_kept(before, after)
}

/// Every column kept its capacity and lost no room: its length did not grow.
pub open spec fn room_kept(before: WorldView, after: WorldView) -> bool {
    &&& after.tables.len() == before.tables.len()
    &&& forall|t: int| 0 <= t < before.tables.len() ==> (#[trigger] after.tables[t]).columns.len() == before.tables[t].columns.len()
    &&& forall|t: int, c: int| 0 <= t < before.tables.len() && 0 <= c < before.tables[t].columns.len()
        ==> (#[trigger] after.tables[t].columns[c]).capacity == before.tables[t].columns[c].capacity
        && after.tables[t].columns[c].len() <= before.tables[t].columns[c].len()
    &&& forall|c: usize| #[trigger] before.sparse_sets.contains_key(c) ==> after.sparse_sets.contains_key(c)
        && after.sparse_sets[c].column.capacity == before.sparse_sets[c].column.capacity
        && after.sparse_sets[c].column.len() <= before.sparse_sets[c].column.len()
}

/// Columns that kept their capacity and did not grow can still grow.
proof fn lemma_room_kept(before: WorldView, after: WorldView)
    requires
        before.columns_can_grow(),
        room_kept(before, after),
        after.sparse_sets.dom() == before.sparse_sets.dom(),
    ensures
        after.columns_can_grow(),
{
    assert forall|t: int, c: int| 0 <= t < after.tables.len() && 0 <= c < after.tables[t].columns.len()
        implies (#[trigger] after.tables[t].columns[c]).can_push() by {
        assert(before.tables[t].columns[c].can_push());
    }
    assert forall|c: usize| #[trigger] after.sparse_sets.contains_key(c) implies after.sparse_sets[c].column.can_push() by {
        assert(before.sparse_sets.contains_key(c));
        assert(before.sparse_sets[c].column.can_push());
    }
}

/// `next` keeps the components and tables of every archetype of `prev`.
pub open spec fn extends_shape(prev: Seq<ArchetypeView>, next: Seq<ArchetypeView>) -> bool {
    &&& prev.len() <= next.len()
    &&& forall|x: int| 0 <= x < prev.len() ==> (#[trigger] next[x]).table_components == prev[x].table_components
        && next[x].sparse_set_components == prev[x].sparse_set_components
        && next[x].table_id == prev[x].table_id
}

/// A component that a live entity has is registered, and its value has
/// the size of the component's layout.
proof fn lemma_value_facts(v: WorldView, e: Entity, c: ComponentId)
    requires
        v.registries_ok(),
        v.linked(),
        crate::table::tables_wf(v.tables),
        forall|s: usize| #[trigger] v.sparse_sets.contains_key(s) ==> v.sparse_sets[s].wf(),
        v.has_component(e, c),
    ensures
        c.0 < v.components.len(),
        v.component_value(e, c).len() == v.components[c.0 as int].layout.size,
{
    assert(v.entity_linked(e));
    let l = v.loc(e);
    let a = l.archetype_id.0 as int;
    if v.archetypes[a].table_components.contains(c) {
        assert(c.0 < v.components.len() && v.components[c.0 as int].storage_type == StorageType::Table);
        let t = v.tables[l.table_id.0 as int];
        assert(t.wf());
        assert(t.ids == v.archetypes[a].table_components);
        let col = t.column_of(c);
        assert(t.ids.contains(c));
        assert(t.ids[col].0 < v.components.len() && t.columns[col].layout == v.components[t.ids[col].0 as int].layout);
    } else {
        assert(v.archetypes[a].sparse_set_components.contains(c));
        assert(c.0 < v.components.len() && v.components[c.0 as int].storage_type == StorageType::SparseSet);
        assert(v.sparse_sets.contains_key(c.0));
        let s = v.sparse_sets[c.0];
        assert(s.has(e));
        assert(s.wf());
    }
}

/// What adding the components `ids` with the values `values` to the live
/// entity `e` did: `e` moved from its archetype to the one that adds those
/// components, holds the new values, and kept the values of its other
/// components.
pub open spec fn inserted(before: WorldView, after: WorldView, e: Entity, ids: Seq<ComponentId>, values: Seq<Seq<u8>>) -> bool {
    let a0 = before.loc(e).archetype_id.0 as int;
    let a1 = after.loc(e).archetype_id.0 as int;
    &&& after.entities.contains(e)
    &&& extends_shape(before.archetypes, after.archetypes)
    &&& 0 <= a0 < before.archetypes.len()
    &&& 0 <= a1 < after.archetypes.len()
    &&& reaches(after.archetypes, after.components, a0, a1, ids)
    &&& forall|k: int| 0 <= k < ids.len() ==> after.component_value(e, #[trigger] ids[k]) == values[k]
    &&& forall|c: ComponentId| before.has_component(e, c) && !ids.contains(c)
        ==> #[trigger] after.has_component(e, c) && after.component_value(e, c) == before.component_value(e, c)
}

/// Inserting components that an entity lacks and then removing them again
/// brings the entity back to the archetype it started in.
pub proof fn lemma_insert_then_remove(w0: WorldView, w1: WorldView, w2: WorldView, e: Entity, ids: Seq<ComponentId>, values: Seq<Seq<u8>>)
    requires
        inserted(w0, w1, e, ids, values),
        removed(w1, w2, e, ids),
        crate::archetype::archetypes_wf(w2.archetypes),
        forall|k: int| 0 <= k < ids.len() ==> !w0.archetypes[w0.loc(e).archetype_id.0 as int].contains(#[trigger] ids[k]),
    ensures
        w2.loc(e).archetype_id == w0.loc(e).archetype_id,
{
    let a0 = w0.loc(e).archetype_id.0 as int;
    let a1 = w1.loc(e).archetype_id.0 as int;
    let a2 = w2.loc(e).archetype_id.0 as int;
    assert(w2.archetypes[a0].table_components == w0.archetypes[a0].table_components);
    assert(w2.archetypes[a0].sparse_set_components == w0.archetypes[a0].sparse_set_components);
    assert(w1.archetypes[a0].table_components == w0.archetypes[a0].table_components);
    assert(w1.archetypes[a0].sparse_set_components == w0.archetypes[a0].sparse_set_components);
    assert(w2.archetypes[a1].table_components == w1.archetypes[a1].table_components);
    assert(w2.archetypes[a1].sparse_set_components == w1.archetypes[a1].sparse_set_components);
    assert(reaches(w2.archetypes, w1.components, a0, a1, ids));
    assert forall|k: int| 0 <= k < ids.len() implies !w2.archetypes[a0].contains(#[trigger] ids[k]) by {
        assert(!w0.archetypes[a0].contains(ids[k]));
    }
    crate::bundle::lemma_add_then_remove(w2.archetypes, w1.components, a0, a1, a2, ids);
}

/// What removing the components `ids` from the live entity `e` did: `e`
/// moved from its archetype to the one without those components, and kept
/// the values of its other components.
pub open spec fn removed(before: WorldView, after: WorldView, e: Entity, ids: Seq<ComponentId>) -> bool {
    let a0 = before.loc(e).archetype_id.0 as int;
    let a1 = after.loc(e).archetype_id.0 as int;
    &&& after.entities.contains(e)
    &&& extends_shape(before.archetypes, after.archetypes)
    &&& 0 <= a0 < before.archetypes.len()
    &&& 0 <= a1 < after.archetypes.len()
    &&& crate::bundle::removes(after.archetypes, a0, a1, ids)
    &&& forall|c: ComponentId| before.has_component(e, c) && !ids.contains(c)
        ==> #[trigger] after.has_component(e, c) && after.component_value(e, c) == before.component_value(e, c)
}

/// What despawning `e` did to the counts: one member less in its archetype
/// and one row less in its table, every other archetype and table as it
/// was, one value less in the sparse set of each of its sparse-class
/// components, one allocated entity less.
pub open spec fn despawn_counts(before: WorldView, after: WorldView, e: Entity) -> bool {
    let a = before.loc(e).archetype_id.0 as int;
    let t = before.loc(e).table_id.0 as int;
    &&& after.archetypes.len() == before.archetypes.len()
    &&& after.tables.len() == before.tables.len()
    &&& forall|x: int| 0 <= x < after.archetypes.len() ==> #[trigger] after.archetype_len(x) + if x == a { 1nat } else { 0nat } == before.archetype_len(x)
    &&& forall|x: int| 0 <= x < after.tables.len() ==> #[trigger] after.table_len(x) + if x == t { 1nat } else { 0nat } == before.table_len(x)
    &&& forall|c: usize| #[trigger] before.sparse_sets.contains_key(c) ==> after.sparse_sets.contains_key(c)
        && after.sparse_sets[c].len() + (if before.archetypes[a].sparse_set_components.contains(ComponentId(c)) { 1nat } else { 0nat })
        == before.sparse_sets[c].len()
    &&& after.entities.len + 1 == before.entities.len
    &&& same_graph(before.archetypes, after.archetypes)
}

/// Spawning an entity and despawning it again gives back the counts from
/// before the spawn: of every archetype's members, every table's rows, every
/// sparse set's values and the allocated entities.
pub proof fn lemma_spawn_then_despawn(w0: WorldView, w1: WorldView, w2: WorldView, e: Entity, ids: Seq<ComponentId>)
    requires
        spawn_counts(w0, w1, e, ids),
        w1.loc(e).archetype_id.0 < w1.archetypes.len(),
        reaches(w1.archetypes, w1.components, 0, w1.loc(e).archetype_id.0 as int, ids),
        crate::archetype::archetypes_wf(w1.archetypes),
        w1.registries_ok(),
        despawn_counts(w1, w2, e),
    ensures
        forall|x: int| 0 <= x < w2.archetypes.len() ==> #[trigger] w2.archetype_len(x) == w0.archetype_len(x),
        forall|x: int| 0 <= x < w2.tables.len() ==> #[trigger] w2.table_len(x) == w0.table_len(x),
        forall|c: usize| #[trigger] w0.sparse_sets.contains_key(c) ==> w2.sparse_sets.contains_key(c)
            && w2.sparse_sets[c].len() == w0.sparse_sets[c].len(),
        w2.entities.len == w0.entities.len,
{
    let a = w1.loc(e).archetype_id.0 as int;
    assert forall|x: int| 0 <= x < w2.archetypes.len() implies #[trigger] w2.archetype_len(x) == w0.archetype_len(x) by {
        assert(w1.archetype_len(x) == w0.archetype_len(x) + if x == a { 1nat } else { 0nat });
    }
    assert forall|x: int| 0 <= x < w2.tables.len() implies #[trigger] w2.table_len(x) == w0.table_len(x) by {
        assert(w1.table_len(x) == w0.table_len(x) + if x == w1.loc(e).table_id.0 as int { 1nat } else { 0nat });
    }
    assert forall|c: usize| #[trigger] w0.sparse_sets.contains_key(c) implies w2.sparse_sets.contains_key(c)
        && w2.sparse_sets[c].len() == w0.sparse_sets[c].len() by {
        assert(w1.sparse_sets.contains_key(c));
        assert(w1.components[c as int].storage_type == StorageType::SparseSet);
        let cid = ComponentId(c);
        assert(w1.archetypes[0].sparse_set_components.to_set() =~= Set::empty());
        if ids.contains(cid) {
            assert(of_class(w1.components, ids, StorageType::SparseSet).contains(cid));
            assert(w1.archetypes[a].sparse_set_components.to_set().contains(cid));
        }
        if w1.archetypes[a].sparse_set_components.contains(cid) {
            assert(w1.archetypes[a].sparse_set_components.to_set().contains(cid));
            assert(of_class(w1.components, ids, StorageType::SparseSet).contains(cid));
        }
    }
}

/// The value `value` is stored as component `c` of `e`, at row `row` of
/// table `t` for a table-class component.
pub open spec fn written(v: WorldView, e: Entity, c: ComponentId, value: Seq<u8>, t: crate::table::TableId, row: TableRow) -> bool {
    if v.components[c.0 as int].storage_type == StorageType::Table {
        let tv = v.tables[t.0 as int];
        tv.columns[tv.column_of(c)].values[row.0 as int] == value
    } else {
        v.sparse_sets.contains_key(c.0) && v.sparse_sets[c.0].has(e)
            && v.sparse_sets[c.0].column.values[v.sparse_sets[c.0].row_of(e.index)->Some_0.0 as int] == value
    }
}

/// Each spawn of a bundle adds one row to the table of the bundle's
/// archetype and one value to the sparse set of each of the bundle's
/// sparse-class components.
pub proof fn lemma_repeated_spawns_storage(worlds: Seq<WorldView>, spawned: Seq<Entity>, ids: Seq<ComponentId>)
    requires
        worlds.len() == spawned.len() + 1,
        forall|i: int| 0 <= i < worlds.len() ==> crate::archetype::archetypes_wf(#[trigger] worlds[i].archetypes),
        forall|i: int| 0 <= i < spawned.len() ==> {
            &&& (#[trigger] worlds[i + 1]).components == worlds[i].components
            &&& worlds[i + 1].loc(spawned[i]).archetype_id.0 < worlds[i + 1].archetypes.len()
            &&& reaches(worlds[i + 1].archetypes, worlds[i + 1].components, 0, worlds[i + 1].loc(spawned[i]).archetype_id.0 as int, ids)
            &&& spawn_counts(worlds[i], worlds[i + 1], spawned[i], ids)
        },
    ensures
        forall|c: usize| #[trigger] worlds[0].sparse_sets.contains_key(c) ==> worlds[spawned.len() as int].sparse_sets.contains_key(c)
            && worlds[spawned.len() as int].sparse_sets[c].len() == worlds[0].sparse_sets[c].len()
            + if ids.contains(ComponentId(c)) { spawned.len() } else { 0nat },
        spawned.len() > 0 ==> {
            let w = worlds[spawned.len() as int];
            let t = w.archetypes[w.loc(spawned[spawned.len() - 1]).archetype_id.0 as int].table_id.0 as int;
            w.table_len(t) == worlds[0].table_len(t) + spawned.len()
        },
    decreases spawned.len(),
{
    let n = spawned.len();
    if n > 0 {
        let ws = worlds.drop_last();
        let es = spawned.drop_last();
        lemma_repeated_spawns_storage(ws, es, ids);
        assert(ws[0] == worlds[0]);
        let w0 = worlds[n - 1];
        let w1 = worlds[n as int];
        assert(ws[n - 1] == w0);
        assert(w1 == worlds[(n - 1) + 1]);
        let e = spawned[n - 1];
        assert(spawn_counts(w0, w1, e, ids));
        assert forall|c: usize| #[trigger] worlds[0].sparse_sets.contains_key(c) implies w1.sparse_sets.contains_key(c)
            && w1.sparse_sets[c].len() == worlds[0].sparse_sets[c].len() + if ids.contains(ComponentId(c)) { n } else { 0nat } by {
            assert(w0.sparse_sets.contains_key(c));
        }
        let d = w1.loc(e).archetype_id.0 as int;
        let t = w1.archetypes[d].table_id.0 as int;
        assert(w1.table_len(t) == w0.table_len(t) + 1) by {
            assert(w1.loc(e).table_id.0 == t);
            assert(0 <= t < w1.tables.len() || w1.table_len(t) == 0);
        }
        if n > 1 {
            let e0 = es[n - 2];
            assert(e0 == spawned[n - 2]);
            assert(worlds[(n - 2) + 1] == w0);
            let d0 = w0.loc(e0).archetype_id.0 as int;
            assert(reaches(w0.archetypes, w0.components, 0, d0, ids));
            assert(w1.archetypes[d0].table_components == w0.archetypes[d0].table_components);
            assert(w1.archetypes[0].table_components == w0.archetypes[0].table_components);
            assert(reaches(w1.archetypes, w1.components, 0, d0, ids));
            lemma_reached_unique(w1, ids, d0, d);
            assert(w1.archetypes[d0].table_id == w0.archetypes[d0].table_id);
        }
    }
}

/// The live entity `e` has a component registered like `d`, whose value is
/// `value`.
pub open spec fn holds_value(v: WorldView, e: Entity, d: ComponentDescriptor, value: Seq<u8>) -> bool {
    exists|c: ComponentId| {
        &&& c.0 < v.components.len()
        &&& v.components[c.0 as int].type_id == d.type_id
        &&& v.components[c.0 as int].storage_type == d.storage_type
        &&& #[trigger] v.has_component(e, c)
        &&& v.component_value(e, c) == value
    }
}

/// Spawning right after a despawn reuses the freed index, with the next
/// generation.
pub proof fn lemma_despawn_then_spawn_reuses(before: WorldView, after: WorldView, freed: Entity)
    requires
        after.entities.pending == before.entities.pending.push(freed.index),
        after.entities.meta[freed.index as int].generation == crate::entity::next_generation(freed.generation),
    ensures
        after.entities.allocate().0.index == freed.index,
        after.entities.allocate().0.generation == crate::entity::next_generation(freed.generation),
{
}

/// The entity `e` was spawned with the components `ids`: it sits in the
/// archetype that adding `ids` to the empty archetype reaches and, where
/// no reservation was waiting, the counts grew as `spawn_counts` says.
pub open spec fn spawned_as(before: WorldView, after: WorldView, e: Entity, ids: Seq<ComponentId>) -> bool {
    &&& after.entities.contains(e)
    &&& after.loc(e).archetype_id.0 < after.archetypes.len()
    &&& reaches(after.archetypes, after.components, 0, after.loc(e).archetype_id.0 as int, ids)
    &&& before.entities.flushed() ==> spawn_counts(before, after, e, ids)
}

/// The entity `e` was spawned with the components of some registered bundle.
pub open spec fn spawned_from_bundle(before: WorldView, after: WorldView, e: Entity) -> bool {
    exists|b: int| 0 <= b < after.bundles.len() && #[trigger] spawned_as(before, after, e, after.bundles[b])
}

/// Two descriptors name the same type key.
pub open spec fn repeats_type_key(ds: Seq<ComponentDescriptor>) -> bool {
    exists|i: int, j: int| 0 <= i < j < ds.len() && (#[trigger] ds[i]).type_id is Some && ds[i].type_id == (#[trigger] ds[j]).type_id
}

/// The identifier of a world.
#[derive(Clone, Copy, Debug, PartialEq, Eq, Structural, Hash)]
pub struct WorldId(pub u32);

impl WorldId {
    /// The next identifier from a counter of handed-out identifiers; `None`
    /// once the counter is exhausted.
    pub fn next(counter: &mut u32) -> (r: Option<WorldId>)
        ensures
            old(counter)@ < u32::MAX ==> r == Some(WorldId(*old(counter))) && *final(counter) == *old(counter) + 1,
            *old(counter) == u32::MAX ==> r is None && *final(counter) == *old(counter),
    {
        let v = *counter;
        match v.checked_add(1) {
            Some(n) => {
                *counter = n;
                Some(WorldId(v))
            },
            None => None,
        }
    }
}

/// The abstract state of a world.
pub struct WorldView {
    pub entities: EntitiesView,
    pub components: Seq<ComponentRecord>,
    pub tables: Seq<TableView>,
    pub sparse_sets: Map<usize, ComponentSparseSetView>,
    pub archetypes: Seq<ArchetypeView>,
    pub bundles: Seq<Seq<ComponentId>>,
    pub change_tick: u32,
    /// The number of (archetype, component) ids handed out.
    pub archetype_component_count: nat,
}

impl WorldView {
    /// The location of the entity at index `i`.
    pub open spec fn loc(self, e: Entity) -> EntityLocation {
        self.entities.meta[e.index as int].location
    }

    /// A live entity sits where its location says, in its archetype and in
    /// its table.
    pub open spec fn entity_linked(self, e: Entity) -> bool {
        let l = self.loc(e);
        let a = l.archetype_id.0 as int;
        let t = l.table_id.0 as int;
        &&& 0 <= a < self.archetypes.len()
        &&& l.archetype_row.0 < self.archetypes[a].entities.len()
        &&& self.archetypes[a].entities[l.archetype_row.0 as int] == (ArchetypeEntity { entity: e, table_row: l.table_row })
        &&& self.archetypes[a].table_id == l.table_id
        &&& 0 <= t < self.tables.len()
        &&& l.table_row.0 < self.tables[t].entities.len()
        &&& self.tables[t].entities[l.table_row.0 as int] == e
    }

    /// The entity, archetype and table parts of the world agree.
    pub open spec fn linked(self) -> bool {
        &&& forall|e: Entity| #[trigger] self.entities.contains(e) ==> self.entity_linked(e)
        &&& forall|a: int, r: int| 0 <= a < self.archetypes.len() && 0 <= r < self.archetypes[a].entities.len()
            ==> self.entities.contains(#[trigger] self.archetypes[a].entities[r].entity)
            && self.loc(self.archetypes[a].entities[r].entity) == (EntityLocation {
                archetype_id: ArchetypeId(a as u32),
                archetype_row: crate::archetype::ArchetypeRow(r as u32),
                table_id: self.archetypes[a].table_id,
                table_row: self.archetypes[a].entities[r].table_row,
            })
        &&& forall|t: int, r: int| 0 <= t < self.tables.len() && 0 <= r < self.tables[t].entities.len()
            ==> self.entities.contains(#[trigger] self.tables[t].entities[r])
            && self.loc(self.tables[t].entities[r]).table_id.0 == t
            && self.loc(self.tables[t].entities[r]).table_row.0 == r
        &&& forall|c: usize, e: Entity| #[trigger] self.sparse_sets.contains_key(c) ==> (#[trigger] self.sparse_sets[c].has(e)
            <==> self.entities.contains(e) && self.archetypes[self.loc(e).archetype_id.0 as int].sparse_set_components.contains(ComponentId(c)))
    }

    /// The linkage of `linked` for every entity but the dead entity `x`,
    /// whose rows and sparse values may still be left over.
    pub open spec fn linked_except_rows(self, x: Entity) -> bool {
        &&& !self.entities.contains(x)
        &&& forall|e: Entity| #[trigger] self.entities.contains(e) ==> self.entity_linked(e)
        &&& forall|a: int, r: int| 0 <= a < self.archetypes.len() && 0 <= r < self.archetypes[a].entities.len()
            && self.archetypes[a].entities[r].entity != x
            ==> self.entities.contains(#[trigger] self.archetypes[a].entities[r].entity)
            && self.loc(self.archetypes[a].entities[r].entity) == (EntityLocation {
                archetype_id: ArchetypeId(a as u32),
                archetype_row: crate::archetype::ArchetypeRow(r as u32),
                table_id: self.archetypes[a].table_id,
                table_row: self.archetypes[a].entities[r].table_row,
            })
        &&& forall|t: int, r: int| 0 <= t < self.tables.len() && 0 <= r < self.tables[t].entities.len()
            && self.tables[t].entities[r] != x
            ==> self.entities.contains(#[trigger] self.tables[t].entities[r])
            && self.loc(self.tables[t].entities[r]).table_id.0 == t
            && self.loc(self.tables[t].entities[r]).table_row.0 == r
        &&& forall|c: usize, e: Entity| #[trigger] self.sparse_sets.contains_key(c) && e != x ==> (#[trigger] self.sparse_sets[c].has(e)
            <==> self.entities.contains(e) && self.archetypes[self.loc(e).archetype_id.0 as int].sparse_set_components.contains(ComponentId(c)))
    }

    /// The linkage of `linked`, where the sparse-set membership of `x` may
    /// still be missing or stale.
    pub open spec fn linked_except(self, x: Entity) -> bool {
        &&& forall|e: Entity| #[trigger] self.entities.contains(e) ==> self.entity_linked(e)
        &&& forall|a: int, r: int| 0 <= a < self.archetypes.len() && 0 <= r < self.archetypes[a].entities.len()
            ==> self.entities.contains(#[trigger] self.archetypes[a].entities[r].entity)
            && self.loc(self.archetypes[a].entities[r].entity) == (EntityLocation {
                archetype_id: ArchetypeId(a as u32),
                archetype_row: crate::archetype::ArchetypeRow(r as u32),
                table_id: self.archetypes[a].table_id,
                table_row: self.archetypes[a].entities[r].table_row,
            })
        &&& forall|t: int, r: int| 0 <= t < self.tables.len() && 0 <= r < self.tables[t].entities.len()
            ==> self.entities.contains(#[trigger] self.tables[t].entities[r])
            && self.loc(self.tables[t].entities[r]).table_id.0 == t
            && self.loc(self.tables[t].entities[r]).table_row.0 == r
        &&& forall|c: usize, e: Entity| #[trigger] self.sparse_sets.contains_key(c) && e != x ==> (#[trigger] self.sparse_sets[c].has(e)
            <==> self.entities.contains(e) && self.archetypes[self.loc(e).archetype_id.0 as int].sparse_set_components.contains(ComponentId(c)))
    }

    /// Whether the live entity `e` has component `c`.
    pub open spec fn has_component(self, e: Entity, c: ComponentId) -> bool {
        self.entities.contains(e) && self.archetypes[self.loc(e).archetype_id.0 as int].contains(c)
    }

    /// The value of component `c` of the live entity `e`, where it has one.
    pub open spec fn component_value(self, e: Entity, c: ComponentId) -> Seq<u8> {
        let l = self.loc(e);
        if self.components[c.0 as int].storage_type == StorageType::Table {
            let t = self.tables[l.table_id.0 as int];
            t.columns[t.column_of(c)].values[l.table_row.0 as int]
        } else {
            let s = self.sparse_sets[c.0];
            s.column.values[s.row_of(e.index)->Some_0.0 as int]
        }
    }

    /// The count of entities of an archetype, zero past the registry's end.
    pub open spec fn archetype_len(self, a: int) -> nat {
        if 0 <= a < self.archetypes.len() {
            self.archetypes[a].entities.len()
        } else {
            0
        }
    }

    /// The count of rows of a table, zero past the registry's end.
    pub open spec fn table_len(self, t: int) -> nat {
        if 0 <= t < self.tables.len() {
            self.tables[t].entities.len()
        } else {
            0
        }
    }

    /// The ticks of component `c` of the live entity `e`, where it has one.
    pub open spec fn component_ticks(self, e: Entity, c: ComponentId) -> (Tick, Tick) {
        let l = self.loc(e);
        if self.components[c.0 as int].storage_type == StorageType::Table {
            let t = self.tables[l.table_id.0 as int];
            let col = t.columns[t.column_of(c)];
            (col.added[l.table_row.0 as int], col.changed[l.table_row.0 as int])
        } else {
            let s = self.sparse_sets[c.0];
            let row = s.row_of(e.index)->Some_0.0 as int;
            (s.column.added[row], s.column.changed[row])
        }
    }

    /// There is room for spawning one entity with up to `n` newly registered
    /// components: no index, row or id would overflow.
    pub open spec fn can_spawn_with(self, n: nat) -> bool {
        let f = self.entities.flush();
        &&& self.components.len() + n < u32::MAX
        &&& self.archetypes.len() < u32::MAX - 1
        &&& self.tables.len() < u32::MAX
        &&& self.archetype_component_count + 2 * (self.components.len() + n) <= usize::MAX
        &&& f.1.can_alloc()
        &&& forall|a: int| 0 <= a < self.archetypes.len() ==> (#[trigger] self.archetypes[a]).entities.len() + f.0.len() + 1 < u32::MAX
        &&& forall|t: int| 0 <= t < self.tables.len() ==> (#[trigger] self.tables[t]).entities.len() + f.0.len() + 1 < u32::MAX
        &&& forall|c: usize| #[trigger] self.sparse_sets.contains_key(c) ==> self.sparse_sets[c].len() + 1 < u32::MAX
        &&& self.columns_can_grow()
    }

    /// There is room for placing one entity: no archetype, table or sparse
    /// set is full, and new archetypes and tables can be numbered.
    pub open spec fn can_place(self) -> bool {
        &&& self.archetypes.len() < u32::MAX - 1
        &&& self.tables.len() < u32::MAX
        &&& self.archetype_component_count + 2 * self.components.len() <= usize::MAX
        &&& forall|a: int| 0 <= a < self.archetypes.len() ==> (#[trigger] self.archetypes[a]).entities.len() + 1 < u32::MAX
        &&& forall|t: int| 0 <= t < self.tables.len() ==> (#[trigger] self.tables[t]).entities.len() + 1 < u32::MAX
        &&& forall|c: usize| #[trigger] self.sparse_sets.contains_key(c) ==> self.sparse_sets[c].len() + 1 < u32::MAX
        &&& self.columns_can_grow()
    }

    /// Every column of every table and sparse set has room for one more
    /// value, or can grow without overflowing its capacity.
    pub open spec fn columns_can_grow(self) -> bool {
        &&& forall|t: int, c: int| 0 <= t < self.tables.len() && 0 <= c < self.tables[t].columns.len()
            ==> (#[trigger] self.tables[t].columns[c]).can_push()
        &&& forall|c: usize| #[trigger] self.sparse_sets.contains_key(c) ==> self.sparse_sets[c].column.can_push()
    }

    pub open spec fn can_spawn(self) -> bool {
        self.can_spawn_with(0)
    }

    /// The registries agree with one another.
    pub open spec fn registries_ok(self) -> bool {
        &&& classes_ok(self.archetypes, self.components)
        &&& edges_ok(self.archetypes, self.components, self.bundles)
        &&& tables_linked(self.archetypes, self.tables)
        &&& forall|b: int, k: int| 0 <= b < self.bundles.len() && 0 <= k < self.bundles[b].len()
            ==> (#[trigger] self.bundles[b][k]).0 < self.components.len()
        &&& forall|c: usize| #[trigger] self.sparse_sets.contains_key(c) <==> c < self.components.len()
            && self.components[c as int].storage_type == StorageType::SparseSet
        &&& forall|c: usize| #[trigger] self.sparse_sets.contains_key(c) ==> self.sparse_sets[c].column.layout
            == self.components[c as int].layout
        &&& forall|t: int, k: int| 0 <= t < self.tables.len() && 0 <= k < self.tables[t].ids.len()
            ==> (#[trigger] self.tables[t].ids[k]).0 < self.components.len()
            && self.tables[t].columns[k].layout == self.components[self.tables[t].ids[k].0 as int].layout
    }
}

/// The world: every entity, component, table, sparse set, archetype and
/// bundle, and the change tick.
#[derive(Debug)]
pub struct World {
    world_id: WorldId,
    entities: Entities,
    components: Components,
    tables: Tables,
    sparse_sets: SparseSets,
    archetypes: Archetypes,
    bundles: Bundles,
    change_tick: u32,
    last_change_tick: Tick,
    last_check_tick: Tick,
}

impl View for World {
    type V = WorldView;

    closed spec fn view(&self) -> WorldView {
        WorldView {
            entities: self.entities@,
            components: self.components@,
            tables: self.tables@,
            sparse_sets: self.sparse_sets@,
            archetypes: self.archetypes@,
            bundles: self.bundles@,
            change_tick: self.change_tick,
            archetype_component_count: self.archetypes.spec_component_count(),
        }
    }
}

impl World {
    /// Every part is well formed and the registries agree.
    pub closed spec fn parts_wf(&self) -> bool {
        &&& self.entities.wf()
        &&& self.components.wf()
        &&& self.tables.wf()
        &&& self.sparse_sets.wf()
        &&& self.archetypes.wf()
        &&& self.bundles.wf()
        &&& self@.registries_ok()
    }

    pub open spec fn wf(&self) -> bool {
        &&& self.parts_wf()
        &&& self@.linked()
    }

    /// Changing only which entities sit in which rows keeps the parts well
    /// formed.
    proof fn lemma_parts_keep(&self, prev: WorldView)
        requires
            self.entities.wf(),
            self.components.wf(),
            self.tables.wf(),
            self.sparse_sets.wf(),
            self.archetypes.wf(),
            self.bundles.wf(),
            prev.registries_ok(),
            same_graph(prev.archetypes, self@.archetypes),
            self@.components == prev.components,
            self@.bundles == prev.bundles,
            self@.sparse_sets == prev.sparse_sets,
            self@.tables.len() == prev.tables.len(),
            forall|t: int| 0 <= t < prev.tables.len() ==> (#[trigger] self@.tables[t]).ids == prev.tables[t].ids
                && self@.tables[t].columns.len() == prev.tables[t].columns.len()
                && forall|k: int| 0 <= k < prev.tables[t].columns.len() ==> (#[trigger] self@.tables[t].columns[k]).layout == prev.tables[t].columns[k].layout,
        ensures
            self.parts_wf(),
    {
        let v = self@;
        lemma_same_graph(prev.archetypes, v.archetypes, v.components, v.bundles, prev.tables, v.tables);
        self.tables.lemma_wf();
        assert forall|t: int, k: int| 0 <= t < v.tables.len() && 0 <= k < v.tables[t].ids.len()
            implies (#[trigger] v.tables[t].ids[k]).0 < v.components.len()
            && v.tables[t].columns[k].layout == v.components[v.tables[t].ids[k].0 as int].layout by {
            assert(v.tables[t].ids == prev.tables[t].ids);
            assert(v.tables[t].wf());
            assert(v.tables[t].columns[k].layout == prev.tables[t].columns[k].layout);
        }
    }

    /// Puts an allocated entity that has no location yet at the end of an
    /// archetype and of the archetype's table.
    #[verifier::spinoff_prover]
    fn place(&mut self, e: Entity, arch: ArchetypeId) -> (r: EntityLocation)
        requires
            old(self).parts_wf(),
            old(self)@.linked(),
            arch.0 < old(self)@.archetypes.len(),
            e.index < old(self)@.entities.meta.len(),
            old(self)@.entities.meta[e.index as int].generation == e.generation,
            !old(self)@.entities.meta[e.index as int].location.is_valid(),
            !old(self)@.entities.pending.contains(e.index),
            old(self)@.archetypes[arch.0 as int].entities.len() < u32::MAX,
            old(self)@.tables[old(self)@.archetypes[arch.0 as int].table_id.0 as int].entities.len() < u32::MAX,
            forall|c: int| 0 <= c < old(self)@.tables[old(self)@.archetypes[arch.0 as int].table_id.0 as int].columns.len()
                ==> (#[trigger] old(self)@.tables[old(self)@.archetypes[arch.0 as int].table_id.0 as int].columns[c]).can_push(),
        ensures
            final(self).parts_wf(),
            final(self)@.linked_except(e),
            final(self)@.entities.contains(e),
            final(self)@.loc(e) == r,
            r.archetype_id == arch,
            r.table_id == old(self)@.archetypes[arch.0 as int].table_id,
            r.table_row.0 == old(self)@.tables[r.table_id.0 as int].entities.len(),
            final(self)@.components == old(self)@.components,
            final(self)@.bundles == old(self)@.bundles,
            final(self)@.sparse_sets == old(self)@.sparse_sets,
            final(self)@.change_tick == old(self)@.change_tick,
            final(self)@.archetype_component_count == old(self)@.archetype_component_count,
            same_graph(old(self)@.archetypes, final(self)@.archetypes),
            final(self)@.entities.len == old(self)@.entities.len,
            final(self)@.entities.pending == old(self)@.entities.pending,
            final(self)@.entities.free_cursor == old(self)@.entities.free_cursor,
            final(self)@.entities.meta == old(self)@.entities.meta.update(
                e.index as int,
                crate::entity::EntityMeta { generation: e.generation, location: r },
            ),
            final(self)@.archetypes == old(self)@.archetypes.update(arch.0 as int, old(self)@.archetypes[arch.0 as int].allocate(e, r.table_row)),
            final(self)@.tables == old(self)@.tables.update(r.table_id.0 as int, old(self)@.tables[r.table_id.0 as int].allocate(e)),
            forall|c: usize| #[trigger] final(self)@.sparse_sets.contains_key(c) ==> !final(self)@.sparse_sets[c].has(e),
    {
        let ghost v0 = self@;
        proof {
            self.tables.lemma_wf();
            self.archetypes.lemma_wf();
        }
        let tid = self.archetypes.at(arch).table_id();
        let table_row = self.tables.allocate(tid, e);
        let loc = self.archetypes.allocate(arch, e, table_row);
        self.entities.set(e.index, loc);
        proof {
            let v = self@;
            let idx = e.index as int;
            let a = arch.0 as int;
            let t = tid.0 as int;
            assert(v.entities.contains(e));
            assert forall|x: Entity| #[trigger] v.entities.contains(x) <==> (v0.entities.contains(x) || x == e) by {
                if x.index == e.index {
                    assert(!v0.entities.contains(x));
                } else if x.index < v0.entities.meta.len() {
                    assert(v.entities.meta[x.index as int] == v0.entities.meta[x.index as int]);
                }
            }
            assert forall|x: Entity| #[trigger] v0.entities.contains(x) implies v.loc(x) == v0.loc(x) && x != e by {
                assert(x.index != e.index);
            }
            assert(same_graph(v0.archetypes, v.archetypes)) by {
                assert forall|x: int| 0 <= x < v0.archetypes.len() implies {
                    &&& (#[trigger] v.archetypes[x]).table_components == v0.archetypes[x].table_components
                    &&& v.archetypes[x].sparse_set_components == v0.archetypes[x].sparse_set_components
                    &&& v.archetypes[x].edges == v0.archetypes[x].edges
                    &&& v.archetypes[x].table_id == v0.archetypes[x].table_id
                } by {
                    if x == a {
                    } else {
                        assert(v.archetypes[x] == v0.archetypes[x]);
                    }
                }
            }
            assert forall|x: int| 0 <= x < v0.tables.len() implies (#[trigger] v.tables[x]).ids == v0.tables[x].ids by {}
            lemma_same_graph(v0.archetypes, v.archetypes, v.components, v.bundles, v0.tables, v.tables);
            assert forall|x: int, k: int| 0 <= x < v.tables.len() && 0 <= k < v.tables[x].ids.len()
                implies (#[trigger] v.tables[x].ids[k]).0 < v.components.len()
                && v.tables[x].columns[k].layout == v.components[v.tables[x].ids[k].0 as int].layout by {
                if x == t {
                    assert(v.tables[x].columns[k].layout == v0.tables[x].columns[k].layout);
                }
            }
            assert(v.sparse_sets == v0.sparse_sets);
            assert(v.components == v0.components);
            assert(v0.registries_ok());
            assert(classes_ok(v.archetypes, v.components));
            assert(edges_ok(v.archetypes, v.components, v.bundles));
            assert(tables_linked(v.archetypes, v.tables));
            assert(forall|b: int, k: int| 0 <= b < v.bundles.len() && 0 <= k < v.bundles[b].len()
                ==> (#[trigger] v.bundles[b][k]).0 < v.components.len());
            assert(forall|c: usize| #[trigger] v.sparse_sets.contains_key(c) <==> c < v.components.len()
                && v.components[c as int].storage_type == StorageType::SparseSet);
            assert(v.registries_ok());
            assert forall|x: Entity| #[trigger] v.entities.contains(x) implies v.entity_linked(x) by {
                if x != e {
                    assert(v0.entities.contains(x));
                    assert(v0.entity_linked(x));
                    let lx = v0.loc(x);
                    let ax = lx.archetype_id.0 as int;
                    let tx = lx.table_id.0 as int;
                    if ax == a {
                        assert(v.archetypes[ax].entities[lx.archetype_row.0 as int] == v0.archetypes[ax].entities[lx.archetype_row.0 as int]);
                    }
                    if tx == t {
                        assert(v.tables[tx].entities[lx.table_row.0 as int] == v0.tables[tx].entities[lx.table_row.0 as int]);
                    }
                }
            }
            assert forall|x: int, r: int| 0 <= x < v.archetypes.len() && 0 <= r < v.archetypes[x].entities.len()
                implies v.entities.contains(#[trigger] v.archetypes[x].entities[r].entity)
                && v.loc(v.archetypes[x].entities[r].entity) == (EntityLocation {
                    archetype_id: ArchetypeId(x as u32),
                    archetype_row: crate::archetype::ArchetypeRow(r as u32),
                    table_id: v.archetypes[x].table_id,
                    table_row: v.archetypes[x].entities[r].table_row,
                }) by {
                if x == a && r == v0.archetypes[a].entities.len() {
                } else {
                    assert(v.archetypes[x].entities[r] == v0.archetypes[x].entities[r]);
                    assert(v0.entities.contains(v0.archetypes[x].entities[r].entity));
                }
            }
            assert forall|x: int, r: int| 0 <= x < v.tables.len() && 0 <= r < v.tables[x].entities.len()
                implies v.entities.contains(#[trigger] v.tables[x].entities[r])
                && v.loc(v.tables[x].entities[r]).table_id.0 == x
                && v.loc(v.tables[x].entities[r]).table_row.0 == r by {
                if x == t && r == v0.tables[t].entities.len() {
                } else {
                    assert(v.tables[x].entities[r] == v0.tables[x].entities[r]);
                    assert(v0.entities.contains(v0.tables[x].entities[r]));
                }
            }
            assert forall|c: usize, x: Entity| #[trigger] v.sparse_sets.contains_key(c) && x != e implies (#[trigger] v.sparse_sets[c].has(x)
                <==> v.entities.contains(x) && v.archetypes[v.loc(x).archetype_id.0 as int].sparse_set_components.contains(ComponentId(c))) by {
                assert(v0.sparse_sets[c].has(x) <==> v0.entities.contains(x) && v0.archetypes[v0.loc(x).archetype_id.0 as int].sparse_set_components.contains(ComponentId(c)));
                if v0.entities.contains(x) {
                    assert(v0.entity_linked(x));
                }
            }
            assert forall|c: usize| #[trigger] v.sparse_sets.contains_key(c) implies !v.sparse_sets[c].has(e) by {
                assert(v0.sparse_sets[c].has(e) <==> v0.entities.contains(e) && v0.archetypes[v0.loc(e).archetype_id.0 as int].sparse_set_components.contains(ComponentId(c)));
            }
        }
        loc
    }

    /// An empty world, holding only the archetype and the table without
    /// components.
    pub fn new(world_id: WorldId) -> (r: World)
        ensures
            r.wf(),
            r.spec_id() == world_id,
            r@.entities.meta.len() == 0,
            r@.entities.len == 0,
            r@.archetypes.len() == 1,
            r@.archetypes[0].entities.len() == 0,
            r@.archetypes[0].table_components.len() == 0,
            r@.archetypes[0].sparse_set_components.len() == 0,
            r@.archetypes[0].table_id.0 == 0,
            r@.tables.len() == 1,
            r@.tables[0].entities.len() == 0,
            r@.components.len() == 0,
            r@.change_tick == 0,
    {
        let r = World {
            world_id,
            entities: Entities::new(),
            components: Components::new(),
            tables: Tables::new(),
            sparse_sets: SparseSets::new(),
            archetypes: Archetypes::new(),
            bundles: Bundles::new(),
            change_tick: 0,
            last_change_tick: Tick::new(0),
            last_check_tick: Tick::new(0),
        };
        proof {
            r.tables.lemma_wf();
            r.archetypes.lemma_wf();
            let v = r@;
            assert(v.archetypes[0].table_id.0 < v.tables.len());
            assert(v.tables[0].ids.len() == 0);
            assert(v.tables[0].ids =~= v.archetypes[0].table_components);
            assert forall|t: int, k: int| 0 <= t < v.tables.len() && 0 <= k < v.tables[t].ids.len()
                implies (#[trigger] v.tables[t].ids[k]).0 < v.components.len() by {
                assert(t == 0);
            }
            assert forall|a: int, r: int| 0 <= a < v.archetypes.len() && 0 <= r < v.archetypes[a].entities.len()
                implies v.entities.contains(#[trigger] v.archetypes[a].entities[r].entity) by {
                assert(a == 0);
            }
            assert forall|t: int, rr: int| 0 <= t < v.tables.len() && 0 <= rr < v.tables[t].entities.len()
                implies v.entities.contains(#[trigger] v.tables[t].entities[rr]) by {
                assert(t == 0);
            }
        }
        r
    }

    pub closed spec fn spec_id(&self) -> WorldId {
        self.world_id
    }

    pub fn id(&self) -> (r: WorldId)
        ensures
            r == self.spec_id(),
    {
        self.world_id
    }

    pub fn change_tick(&self) -> (r: Tick)
        ensures
            r.tick == self@.change_tick,
    {
        Tick::new(self.change_tick)
    }

    pub fn last_change_tick(&self) -> (r: Tick) {
        self.last_change_tick
    }

    /// Advances the change tick by one, wrapping.
    pub fn increment_change_tick(&mut self) -> (r: Tick)
        requires
            old(self).wf(),
        ensures
            final(self).wf(),
            r.tick == old(self)@.change_tick,
            final(self)@ == (WorldView { change_tick: (if old(self)@.change_tick == u32::MAX { 0 } else { old(self)@.change_tick + 1 }) as u32, ..old(self)@ }),
    {
        let t = self.change_tick;
        self.change_tick = t.wrapping_add(1);
        Tick::new(t)
    }

    /// The number of allocated entities.
    pub fn entity_count(&self) -> (r: u32)
        ensures
            r == self@.entities.len,
    {
        self.entities.len()
    }

    /// The location of a live entity; `None` for a dead one.
    pub fn get(&self, entity: Entity) -> (r: Option<EntityLocation>)
        ensures
            r is Some <==> self@.entities.contains(entity),
            r matches Some(l) ==> l == self@.loc(entity),
    {
        self.entities.get(entity)
    }

    /// Registers the components of a bundle's descriptors and returns their
    /// ids, in the order of the descriptors.
    #[verifier::spinoff_prover]
    pub fn component_ids(&mut self, descriptors: &Vec<ComponentDescriptor>) -> (r: Vec<ComponentId>)
        requires
            old(self).wf(),
            old(self)@.components.len() + descriptors@.len() < u32::MAX,
            forall|i: int| 0 <= i < descriptors@.len() ==> descriptor_fits(old(self)@.components, #[trigger] descriptors@[i]),
            forall|i: int, j: int| 0 <= i < descriptors@.len() && 0 <= j < descriptors@.len()
                && (#[trigger] descriptors@[i]).type_id is Some && descriptors@[i].type_id == (#[trigger] descriptors@[j]).type_id
                ==> descriptors@[i].layout == descriptors@[j].layout && descriptors@[i].storage_type == descriptors@[j].storage_type,
        ensures
            final(self).wf(),
            r@.len() == descriptors@.len(),
            forall|i: int| 0 <= i < r@.len() ==> (#[trigger] r@[i]).0 < final(self)@.components.len()
                && final(self)@.components[r@[i].0 as int].layout == descriptors@[i].layout
                && final(self)@.components[r@[i].0 as int].storage_type == descriptors@[i].storage_type,
            forall|i: int| 0 <= i < descriptors@.len() ==> descriptor_fits(final(self)@.components, #[trigger] descriptors@[i]),
            forall|i: int| 0 <= i < r@.len() ==> final(self)@.components[(#[trigger] r@[i]).0 as int].type_id == descriptors@[i].type_id,
            forall|i: int, j: int| 0 <= i < r@.len() && 0 <= j < r@.len() && i != j && descriptors@[i].type_id is None
                ==> #[trigger] r@[i] != #[trigger] r@[j],
            old(self)@.components.len() <= final(self)@.components.len() <= old(self)@.components.len() + descriptors@.len(),
            final(self)@.components.subrange(0, old(self)@.components.len() as int) == old(self)@.components,
            final(self)@.entities == old(self)@.entities,
            final(self)@.archetypes == old(self)@.archetypes,
            final(self)@.tables == old(self)@.tables,
            final(self)@.bundles == old(self)@.bundles,
            final(self)@.change_tick == old(self)@.change_tick,
            final(self)@.archetype_component_count == old(self)@.archetype_component_count,
            forall|c: usize| #[trigger] old(self)@.sparse_sets.contains_key(c) ==> final(self)@.sparse_sets.contains_key(c)
                && final(self)@.sparse_sets[c] == old(self)@.sparse_sets[c],
            forall|c: usize| #[trigger] final(self)@.sparse_sets.contains_key(c) && !old(self)@.sparse_sets.contains_key(c)
                ==> final(self)@.sparse_sets[c].len() == 0,
    {
        let ghost v0 = self@;
        let mut ids: Vec<ComponentId> = Vec::new();
        let mut i: usize = 0;
        while i < descriptors.len()
            invariant
                self.wf(),
                i <= descriptors@.len(),
                ids@.len() == i,
                v0.components.len() + descriptors@.len() < u32::MAX,
                v0.components.len() <= self@.components.len() <= v0.components.len() + i,
                self@.components.subrange(0, v0.components.len() as int) == v0.components,
                forall|k: int| 0 <= k < descriptors@.len() ==> descriptor_fits(self@.components, #[trigger] descriptors@[k]),
                forall|x: int, y: int| 0 <= x < descriptors@.len() && 0 <= y < descriptors@.len()
                    && (#[trigger] descriptors@[x]).type_id is Some && descriptors@[x].type_id == (#[trigger] descriptors@[y]).type_id
                    ==> descriptors@[x].layout == descriptors@[y].layout && descriptors@[x].storage_type == descriptors@[y].storage_type,
                forall|k: int| 0 <= k < i ==> (#[trigger] ids@[k]).0 < self@.components.len()
                    && self@.components[ids@[k].0 as int].layout == descriptors@[k].layout
                    && self@.components[ids@[k].0 as int].storage_type == descriptors@[k].storage_type
                    && self@.components[ids@[k].0 as int].type_id == descriptors@[k].type_id,
                forall|x: int, y: int| 0 <= x < i && 0 <= y < i && x != y && descriptors@[x].type_id is None
                    ==> #[trigger] ids@[x] != #[trigger] ids@[y],
                self@.entities == v0.entities,
                self@.archetypes == v0.archetypes,
                self@.tables == v0.tables,
                self@.bundles == v0.bundles,
                self@.change_tick == v0.change_tick,
                self@.archetype_component_count == v0.archetype_component_count,
                forall|c: usize| #[trigger] v0.sparse_sets.contains_key(c) ==> self@.sparse_sets.contains_key(c)
                    && self@.sparse_sets[c] == v0.sparse_sets[c],
                forall|c: usize| #[trigger] self@.sparse_sets.contains_key(c) && !v0.sparse_sets.contains_key(c)
                    ==> self@.sparse_sets[c].len() == 0,
            decreases descriptors@.len() - i,
        {
            let ghost before = self@;
            let d = descriptors[i].copy();
            let id = self.init_component(d);
            proof {
                let v = self@;
                let di = descriptors@[i as int];
                assert(v.components.subrange(0, before.components.len() as int) == before.components);
                assert(v.components.subrange(0, v0.components.len() as int) =~= v0.components) by {
                    assert forall|k: int| 0 <= k < v0.components.len() implies v.components[k] == v0.components[k] by {
                        assert(v.components.subrange(0, before.components.len() as int)[k] == v.components[k]);
                        assert(before.components.subrange(0, v0.components.len() as int)[k] == before.components[k]);
                    }
                }
                assert forall|k: int| 0 <= k < descriptors@.len() implies descriptor_fits(v.components, #[trigger] descriptors@[k]) by {
                    let dk = descriptors@[k];
                    assert forall|c: int| 0 <= c < v.components.len() && dk.type_id is Some && #[trigger] v.components[c].type_id == dk.type_id
                        implies v.components[c].layout == dk.layout && v.components[c].storage_type == dk.storage_type by {
                        if c < before.components.len() {
                            assert(v.components.subrange(0, before.components.len() as int)[c] == v.components[c]);
                            assert(descriptor_fits(before.components, dk));
                        } else {
                            assert(v.components[c] == crate::component::record_of(di));
                        }
                    }
                }
                if id.0 < before.components.len() {
                    assert(descriptor_fits(before.components, di));
                    assert(before.components[id.0 as int].type_id == di.type_id);
                } else {
                    assert(v.components[id.0 as int] == crate::component::record_of(di));
                }
                assert forall|k: int| 0 <= k < i implies (#[trigger] ids@[k]).0 < v.components.len()
                    && v.components[ids@[k].0 as int].layout == descriptors@[k].layout
                    && v.components[ids@[k].0 as int].storage_type == descriptors@[k].storage_type
                    && v.components[ids@[k].0 as int].type_id == descriptors@[k].type_id by {
                    assert(v.components.subrange(0, before.components.len() as int)[ids@[k].0 as int] == v.components[ids@[k].0 as int]);
                }
                assert(v.components[id.0 as int].type_id == di.type_id);
                assert forall|k: int| 0 <= k < i implies ids@[k] != id || (descriptors@[k].type_id is Some && di.type_id is Some) by {
                    if ids@[k] == id {
                        assert(before.components[id.0 as int].type_id == descriptors@[k].type_id);
                    }
                }
            }
            let ghost prev_ids = ids@;
            ids.push(id);
            i = i + 1;
            proof {
                assert forall|x: int, y: int| 0 <= x < i && 0 <= y < i && x != y && descriptors@[x].type_id is None
                    implies #[trigger] ids@[x] != #[trigger] ids@[y] by {
                    if x < i - 1 && y < i - 1 {
                        assert(ids@[x] == prev_ids[x] && ids@[y] == prev_ids[y]);
                    } else if x == i - 1 {
                        assert(ids@[y] == prev_ids[y]);
                    } else {
                        assert(ids@[x] == prev_ids[x]);
                    }
                }
            }
        }
        ids
    }

    /// Spawns an entity with the values of a registered bundle, one value
    /// per component of the bundle, in the bundle's order.
    pub fn spawn_with_id(&mut self, bundle_id: BundleId, values: Vec<Vec<u8>>) -> (r: Entity)
        requires
            old(self).wf(),
            bundle_id.0 < old(self)@.bundles.len(),
            bundle_id.0 < usize::MAX,
            values@.len() == old(self)@.bundles[bundle_id.0 as int].len(),
            forall|k: int| 0 <= k < values@.len() ==> (#[trigger] values@[k])@.len()
                == old(self)@.components[old(self)@.bundles[bundle_id.0 as int][k].0 as int].layout.size,
            old(self)@.can_spawn(),
        ensures
            final(self).wf(),
            final(self)@.entities.contains(r),
            final(self)@.components == old(self)@.components,
            final(self)@.bundles == old(self)@.bundles,
            final(self)@.loc(r).archetype_id.0 < final(self)@.archetypes.len(),
            reaches(final(self)@.archetypes, final(self)@.components, 0, final(self)@.loc(r).archetype_id.0 as int,
                final(self)@.bundles[bundle_id.0 as int]),
            old(self)@.entities.flushed() ==> spawn_counts(old(self)@, final(self)@, r, final(self)@.bundles[bundle_id.0 as int]),
            old(self)@.entities.flushed() ==> r == old(self)@.entities.allocate().0,
            forall|k: int| 0 <= k < values@.len() ==> final(self)@.has_component(r, #[trigger] final(self)@.bundles[bundle_id.0 as int][k])
                && final(self)@.component_value(r, final(self)@.bundles[bundle_id.0 as int][k]) == values@[k]@,
    {
        let ghost ids = self@.bundles[bundle_id.0 as int];
        let ghost v00 = self@;
        proof {
            self.archetypes.lemma_wf();
            self.tables.lemma_wf();
        }
        self.flush_entities();
        let ghost vf = self@;
        let e = self.entities.allocate();
        proof {
            let v = self@;
            assert forall|x: Entity| #[trigger] v.entities.contains(x) <==> vf.entities.contains(x) by {
                if x.index < vf.entities.meta.len() {
                    assert(v.entities.meta[x.index as int] == vf.entities.meta[x.index as int]);
                }
            }
            assert forall|x: Entity| #[trigger] vf.entities.contains(x) implies v.loc(x) == vf.loc(x) by {
                assert(v.entities.meta[x.index as int] == vf.entities.meta[x.index as int]);
            }
            lemma_linked_frame(vf, v);
            assert(e.index < v.entities.meta.len());
            assert(!v.entities.meta[e.index as int].location.is_valid()) by {
                if vf.entities.pending.len() > 0 {
                    assert(vf.entities.pending[vf.entities.pending.len() - 1] == e.index);
                }
            }
            assert(self.entities.wf());
            assert(v.registries_ok());
            assert(self.components.wf());
            assert(self.tables.wf());
            assert(self.sparse_sets.wf());
            assert(self.archetypes.wf());
            assert(self.bundles.wf());
            assert(self.parts_wf());
            self.bundles.lemma_wf();
        }
        let ghost va = self@;
        proof {
            assert forall|a: int| 0 <= a < va.archetypes.len() implies (#[trigger] va.archetypes[a]).entities.len() + 1 < u32::MAX by {
                if a > 0 {
                    assert(va.archetypes[a] == v00.archetypes[a]);
                }
            }
            assert forall|t: int| 0 <= t < va.tables.len() implies (#[trigger] va.tables[t]).entities.len() + 1 < u32::MAX by {
                if t > 0 {
                    assert(va.tables[t] == v00.tables[t]);
                }
            }
            self.tables.lemma_wf();
            assert(va.tables[0].wf());
            assert forall|t: int, c: int| 0 <= t < va.tables.len() && 0 <= c < va.tables[t].columns.len()
                implies (#[trigger] va.tables[t].columns[c]).can_push() by {
                if t > 0 {
                    assert(va.tables[t] == v00.tables[t]);
                }
            }
            assert(va.columns_can_grow());
        }
        self.spawn_at(e, bundle_id, values);
        proof {
            let v = self@;
            if v00.entities.flushed() {
                assert(vf == v00);
                assert(va.archetypes == v00.archetypes && va.tables == v00.tables && va.sparse_sets == v00.sparse_sets);
                assert(place_counts(va, v, e, ids));
                assert forall|x: int| 0 <= x < v.archetypes.len() implies #[trigger] v.archetype_len(x) == v00.archetype_len(x) + if x == v.loc(e).archetype_id.0 as int { 1nat } else { 0nat } by {
                    assert(v.archetype_len(x) == va.archetype_len(x) + if x == v.loc(e).archetype_id.0 as int { 1nat } else { 0nat });
                }
                assert forall|x: int| 0 <= x < v.tables.len() implies #[trigger] v.table_len(x) == v00.table_len(x) + if x == v.loc(e).table_id.0 as int { 1nat } else { 0nat } by {
                    assert(v.table_len(x) == va.table_len(x) + if x == v.loc(e).table_id.0 as int { 1nat } else { 0nat });
                }
                assert(place_counts(v00, v, e, ids));
            }
        }
        e
    }

    /// Places an allocated entity that is not alive yet in the archetype of
    /// a registered bundle's components and writes the bundle's values.
    #[verifier::spinoff_prover]
    fn spawn_at(&mut self, e: Entity, bundle_id: BundleId, values: Vec<Vec<u8>>)
        requires
            old(self).wf(),
            e.index < old(self)@.entities.meta.len(),
            old(self)@.entities.meta[e.index as int].generation == e.generation,
            !old(self)@.entities.meta[e.index as int].location.is_valid(),
            !old(self)@.entities.pending.contains(e.index),
            bundle_id.0 < old(self)@.bundles.len(),
            bundle_id.0 < usize::MAX,
            values@.len() == old(self)@.bundles[bundle_id.0 as int].len(),
            forall|k: int| 0 <= k < values@.len() ==> (#[trigger] values@[k])@.len()
                == old(self)@.components[old(self)@.bundles[bundle_id.0 as int][k].0 as int].layout.size,
            old(self)@.can_place(),
        ensures
            final(self).wf(),
            final(self)@.entities.contains(e),
            final(self)@.components == old(self)@.components,
            final(self)@.bundles == old(self)@.bundles,
            final(self)@.loc(e).archetype_id.0 < final(self)@.archetypes.len(),
            reaches(final(self)@.archetypes, final(self)@.components, 0, final(self)@.loc(e).archetype_id.0 as int,
                final(self)@.bundles[bundle_id.0 as int]),
            place_counts(old(self)@, final(self)@, e, final(self)@.bundles[bundle_id.0 as int]),
            final(self)@.entities.len == old(self)@.entities.len,
            final(self)@.entities.pending == old(self)@.entities.pending,
            forall|k: int| 0 <= k < values@.len() ==> final(self)@.has_component(e, #[trigger] final(self)@.bundles[bundle_id.0 as int][k])
                && final(self)@.component_value(e, final(self)@.bundles[bundle_id.0 as int][k]) == values@[k]@,
    {
        let ghost ids = self@.bundles[bundle_id.0 as int];
        let ghost v00 = self@;
        proof {
            self.archetypes.lemma_wf();
            self.tables.lemma_wf();
            self.bundles.lemma_wf();
        }
        let ghost va = self@;
        let info = self.bundles.get(bundle_id).unwrap();
        let ids_vec = info.iter_components();
        let arch = info.add_bundle_to_archetype(&mut self.archetypes, &mut self.tables, &self.components, &self.bundles, ArchetypeId(0));
        proof {
            let v = self@;
            lemma_linked_grow(va, v);
            assert(v.archetypes[arch.0 as int].entities.len() < u32::MAX) by {
                if arch.0 < va.archetypes.len() {
                    assert(v.archetypes[arch.0 as int].entities == va.archetypes[arch.0 as int].entities);
                }
            }
            assert(v.tables[v.archetypes[arch.0 as int].table_id.0 as int].entities.len() < u32::MAX) by {
                let t = v.archetypes[arch.0 as int].table_id.0 as int;
                if t < va.tables.len() {
                    assert(v.tables.subrange(0, va.tables.len() as int)[t] == v.tables[t]);
                }
            }
            assert forall|t: int, k: int| 0 <= t < v.tables.len() && 0 <= k < v.tables[t].ids.len()
                implies (#[trigger] v.tables[t].ids[k]).0 < v.components.len()
                && v.tables[t].columns[k].layout == v.components[v.tables[t].ids[k].0 as int].layout by {
                if t < va.tables.len() {
                    assert(v.tables.subrange(0, va.tables.len() as int)[t] == v.tables[t]);
                    assert(v.tables[t] == va.tables[t]);
                }
            }
            assert(va.registries_ok());
            assert(v.sparse_sets == va.sparse_sets && v.components == va.components && v.bundles == va.bundles);
            assert(classes_ok(v.archetypes, v.components));
            assert(edges_ok(v.archetypes, v.components, v.bundles));
            assert(tables_linked(v.archetypes, v.tables));
            assert(v.registries_ok());
            assert(self.parts_wf());
            assert(v.entities.meta[e.index as int].generation == e.generation);
            self.tables.lemma_wf();
            let t = v.archetypes[arch.0 as int].table_id.0 as int;
            assert forall|c: int| 0 <= c < v.tables[t].columns.len() implies (#[trigger] v.tables[t].columns[c]).can_push() by {
                if t < va.tables.len() {
                    assert(v.tables.subrange(0, va.tables.len() as int)[t] == v.tables[t]);
                    assert(va.tables[t].columns[c].can_push());
                } else {
                    assert(v.tables[t].wf());
                    assert(v.tables[t].columns[c].len() == 0);
                }
            }
        }
        let ghost vb = self@;
        let loc = self.place(e, arch);
        let ghost v1 = self@;
        let tid = loc.table_id;
        let row = loc.table_row;
        let tick = Tick::new(self.change_tick);
        let mut values = values;
        let ghost vals = values@;
        proof {
            self.archetypes.lemma_wf();
            self.tables.lemma_wf();
            self.sparse_sets.lemma_wf();
            self.bundles.lemma_wf();
            assert(vb.archetypes[0] == (ArchetypeView { edges: vb.archetypes[0].edges, ..va.archetypes[0] }));
            assert(v1.archetypes[0].table_components == vb.archetypes[0].table_components);
            assert(v1.archetypes[0].sparse_set_components == vb.archetypes[0].sparse_set_components);
            assert(v1.archetypes[0].table_components.to_set() =~= Set::empty());
            assert(v1.archetypes[0].sparse_set_components.to_set() =~= Set::empty());
            assert(v1.archetypes[arch.0 as int].table_components.to_set() =~= of_class(v1.components, ids, StorageType::Table));
            assert(v1.archetypes[arch.0 as int].sparse_set_components.to_set() =~= of_class(v1.components, ids, StorageType::SparseSet));
        }
        let mut i: usize = 0;
        while i < ids_vec.len()
            invariant
                self.parts_wf(),
                self@.linked_except(e),
                ids_vec@ == ids,
                !crate::bundle::has_duplicates(ids),
                forall|k: int| 0 <= k < ids.len() ==> (#[trigger] ids[k]).0 < v1.components.len(),
                i <= ids.len(),
                values@.len() == ids.len(),
                vals.len() == ids.len(),
                forall|k: int| i <= k < ids.len() ==> #[trigger] values@[k] == vals[k],
                forall|k: int| 0 <= k < vals.len() ==> (#[trigger] vals[k])@.len() == v1.components[ids[k].0 as int].layout.size,
                self@.entities == v1.entities,
                self@.archetypes == v1.archetypes,
                self@.components == v1.components,
                self@.bundles == v1.bundles,
                self@.change_tick == v1.change_tick,
                self@.archetype_component_count == v1.archetype_component_count,
                v1.entities.contains(e),
                v1.loc(e) == loc,
                loc.archetype_id == arch,
                arch.0 < v1.archetypes.len(),
                v1.archetypes[arch.0 as int].table_id == tid,
                tid.0 < v1.tables.len(),
                row.0 < v1.tables[tid.0 as int].entities.len(),
                v1.archetypes[arch.0 as int].table_components.to_set() == of_class(v1.components, ids, StorageType::Table),
                v1.archetypes[arch.0 as int].sparse_set_components.to_set() == of_class(v1.components, ids, StorageType::SparseSet),
                self@.tables.len() == v1.tables.len(),
                forall|t: int| 0 <= t < v1.tables.len() && t != tid.0 ==> #[trigger] self@.tables[t] == v1.tables[t],
                self@.tables[tid.0 as int].entities == v1.tables[tid.0 as int].entities,
                self@.tables[tid.0 as int].ids == v1.tables[tid.0 as int].ids,
                self@.sparse_sets.dom() == v1.sparse_sets.dom(),
                forall|c: usize| #[trigger] self@.sparse_sets.contains_key(c) ==> (self@.sparse_sets[c].has(e)
                    <==> exists|k: int| 0 <= k < i && (#[trigger] ids[k]).0 == c),
                forall|c: usize| #[trigger] self@.sparse_sets.contains_key(c) && !(exists|k: int| 0 <= k < i && (#[trigger] ids[k]).0 == c)
                    ==> self@.sparse_sets[c] == v1.sparse_sets[c],
                forall|c: usize| #[trigger] v1.sparse_sets.contains_key(c) ==> v1.sparse_sets[c].len() + 1 < u32::MAX,
                forall|c: usize| #[trigger] v1.sparse_sets.contains_key(c) ==> v1.sparse_sets[c].column.can_push(),
                forall|c: usize| #[trigger] v1.sparse_sets.contains_key(c) ==> !v1.sparse_sets[c].has(e),
                forall|c: usize| #[trigger] self@.sparse_sets.contains_key(c) ==> self@.sparse_sets[c].len() == v1.sparse_sets[c].len()
                    + if exists|k: int| 0 <= k < i && (#[trigger] ids[k]).0 == c { 1nat } else { 0nat },
                v1.linked_except(e),
                forall|k: int| 0 <= k < i ==> written(self@, e, #[trigger] ids[k], vals[k]@, tid, row),
            decreases ids.len() - i,
        {
            let id = ids_vec[i];
            let mut value: Vec<u8> = Vec::new();
            std::mem::swap(&mut values[i], &mut value);
            let ghost before = self@;
            proof {
                assert(value == vals[i as int]);
                assert(value@.len() == v1.components[id.0 as int].layout.size);
                self.tables.lemma_wf();
                self.sparse_sets.lemma_wf();
                assert(ids.to_set().contains(id)) by {
                    assert(ids[i as int] == id);
                }
                assert forall|k: int| 0 <= k < i implies ids[k] != id by {
                    assert(ids[k] != ids[i as int]);
                }
            }
            match self.components.storage_type_of(id) {
                StorageType::Table => {
                    proof {
                        assert(of_class(v1.components, ids, StorageType::Table).contains(id));
                        assert(v1.archetypes[arch.0 as int].table_components.to_set().contains(id));
                        assert(v1.tables[tid.0 as int].ids == v1.archetypes[arch.0 as int].table_components);
                        assert(before.tables[tid.0 as int].has(id));
                    }
                    let c = self.tables.get(tid).unwrap().column_index(id).unwrap();
                    proof {
                        assert(before.tables[tid.0 as int].ids[c as int] == id);
                        assert(before.tables[tid.0 as int].columns[c as int].layout == before.components[before.tables[tid.0 as int].ids[c as int].0 as int].layout);
                    }
                    self.tables.set_value(tid, c, row, value, ComponentTicks::new(tick));
                    proof {
                        let v = self@;
                        assert forall|t: int| 0 <= t < v1.tables.len() && t != tid.0 implies #[trigger] v.tables[t] == v1.tables[t] by {
                            assert(v.tables[t] == before.tables[t]);
                        }
                        assert(v.tables[tid.0 as int].entities == before.tables[tid.0 as int].entities);
                        assert forall|c2: usize| #[trigger] v.sparse_sets.contains_key(c2) implies (v.sparse_sets[c2].has(e)
                            <==> exists|k: int| 0 <= k < i + 1 && (#[trigger] ids[k]).0 == c2) by {
                            assert(before.sparse_sets[c2].has(e) <==> exists|k: int| 0 <= k < i && (#[trigger] ids[k]).0 == c2);
                            if ids[i as int].0 == c2 {
                                assert(v1.components[c2 as int].storage_type == StorageType::SparseSet);
                            }
                            if exists|k: int| 0 <= k < i + 1 && (#[trigger] ids[k]).0 == c2 {
                                let k = choose|k: int| 0 <= k < i + 1 && (#[trigger] ids[k]).0 == c2;
                                if k == i {
                                    assert(v1.components[c2 as int].storage_type == StorageType::SparseSet);
                                }
                            }
                        }
                        assert forall|c2: usize| #[trigger] v.sparse_sets.contains_key(c2) && !(exists|k: int| 0 <= k < i + 1 && (#[trigger] ids[k]).0 == c2)
                            implies v.sparse_sets[c2] == v1.sparse_sets[c2] by {
                            assert(!(exists|k: int| 0 <= k < i && (#[trigger] ids[k]).0 == c2)) by {
                                if exists|k: int| 0 <= k < i && (#[trigger] ids[k]).0 == c2 {
                                    let k = choose|k: int| 0 <= k < i && (#[trigger] ids[k]).0 == c2;
                                    assert(0 <= k < i + 1 && ids[k].0 == c2);
                                }
                            }
                        }
                        assert forall|k: int| 0 <= k < before.tables[tid.0 as int].ids.len() implies (#[trigger] v.tables[tid.0 as int].columns[k]).layout
                            == before.tables[tid.0 as int].columns[k].layout by {
                            if k != c {
                                assert(v.tables[tid.0 as int].columns[k] == before.tables[tid.0 as int].columns[k]);
                            }
                        }
                        lemma_table_write_keeps(before, v, tid.0 as int);
                        assert forall|k: int| 0 <= k < i + 1 implies written(v, e, #[trigger] ids[k], vals[k]@, tid, row) by {
                            if k < i {
                                assert(written(before, e, ids[k], vals[k]@, tid, row));
                                assert(ids[k] != id);
                                if v1.components[ids[k].0 as int].storage_type == StorageType::Table {
                                    assert(ids.to_set().contains(ids[k]));
                                    assert(of_class(v1.components, ids, StorageType::Table).contains(ids[k]));
                                    assert(v1.archetypes[arch.0 as int].table_components.to_set().contains(ids[k]));
                                    assert(v1.tables[tid.0 as int].ids == v1.archetypes[arch.0 as int].table_components);
                                    assert(before.tables[tid.0 as int].ids.contains(ids[k]));
                                    let ck = before.tables[tid.0 as int].column_of(ids[k]);
                                    assert(before.tables[tid.0 as int].ids[ck] == ids[k]);
                                    assert(ck != c);
                                    assert(v.tables[tid.0 as int].columns[ck] == before.tables[tid.0 as int].columns[ck]);
                                    assert(v.tables[tid.0 as int].column_of(ids[k]) == ck);
                                } else {
                                    assert(v.sparse_sets == before.sparse_sets);
                                }
                            } else {
                                assert(ids[k] == id);
                                assert(vals[k] == value);
                                assert(v.tables[tid.0 as int].columns[c as int].values[row.0 as int] == value@);
                                assert(v.tables[tid.0 as int].column_of(id) == c as int) by {
                                    let cc = v.tables[tid.0 as int].column_of(id);
                                    assert(v.tables[tid.0 as int].ids.contains(id));
                                    assert(v.tables[tid.0 as int].wf());
                                    if cc < c {
                                        assert(v.tables[tid.0 as int].ids[cc].0 < v.tables[tid.0 as int].ids[c as int].0);
                                    } else if cc > c {
                                        assert(v.tables[tid.0 as int].ids[c as int].0 < v.tables[tid.0 as int].ids[cc].0);
                                    }
                                }
                            }
                        }
                        assert forall|c2: usize| #[trigger] v.sparse_sets.contains_key(c2) implies v.sparse_sets[c2].len() == v1.sparse_sets[c2].len()
                            + if exists|k: int| 0 <= k < i + 1 && (#[trigger] ids[k]).0 == c2 { 1nat } else { 0nat } by {
                            assert(before.sparse_sets[c2].len() == v1.sparse_sets[c2].len()
                                + if exists|k: int| 0 <= k < i && (#[trigger] ids[k]).0 == c2 { 1nat } else { 0nat });
                            if ids[i as int].0 == c2 {
                                assert(v1.components[c2 as int].storage_type == StorageType::SparseSet);
                            }
                            if exists|k: int| 0 <= k < i + 1 && (#[trigger] ids[k]).0 == c2 {
                                let k = choose|k: int| 0 <= k < i + 1 && (#[trigger] ids[k]).0 == c2;
                                if k == i {
                                    assert(v1.components[c2 as int].storage_type == StorageType::SparseSet);
                                }
                            }
                        }
                    }
                },
                StorageType::SparseSet => {
                    proof {
                        assert(v1.sparse_sets.contains_key(id.0));
                        assert(!(exists|k: int| 0 <= k < i && (#[trigger] ids[k]).0 == id.0)) by {
                            if exists|k: int| 0 <= k < i && (#[trigger] ids[k]).0 == id.0 {
                                let k = choose|k: int| 0 <= k < i && (#[trigger] ids[k]).0 == id.0;
                                assert(ids[k] == id);
                            }
                        }
                        assert(before.sparse_sets[id.0] == v1.sparse_sets[id.0]);
                        assert(before.sparse_sets[id.0].column.layout == before.components[id.0 as int].layout);
                        assert(e.index < u32::MAX);
                        let s0 = before.sparse_sets[id.0];
                        assert(s0.row_of(e.index) is None) by {
                            if s0.row_of(e.index) is Some {
                                let rw = s0.row_of(e.index)->Some_0;
                                assert(crate::sparse_set::row_points_back(crate::sparse_set::lookup(s0.sparse, e.index as int), s0.entities, e.index as int));
                                let x = s0.entities[rw.0 as int];
                                assert(x.index == e.index);
                                assert(s0.has(x));
                                assert(x != e);
                                assert(v1.sparse_sets[id.0].has(x) <==> v1.entities.contains(x) && v1.archetypes[v1.loc(x).archetype_id.0 as int].sparse_set_components.contains(ComponentId(id.0)));
                                assert(!v1.entities.contains(x));
                            }
                        }
                    }
                    self.sparse_sets.insert(id, e, value, tick);
                    proof {
                        let v = self@;
                        assert forall|c2: usize| #[trigger] v.sparse_sets.contains_key(c2) implies (v.sparse_sets[c2].has(e)
                            <==> exists|k: int| 0 <= k < i + 1 && (#[trigger] ids[k]).0 == c2) by {
                            if c2 != id.0 {
                                assert(before.sparse_sets[c2].has(e) <==> exists|k: int| 0 <= k < i && (#[trigger] ids[k]).0 == c2);
                                if exists|k: int| 0 <= k < i + 1 && (#[trigger] ids[k]).0 == c2 {
                                    let k = choose|k: int| 0 <= k < i + 1 && (#[trigger] ids[k]).0 == c2;
                                    assert(0 <= k < i);
                                }
                            } else {
                                assert(ids[i as int].0 == c2);
                            }
                        }
                        assert forall|c2: usize| #[trigger] v.sparse_sets.contains_key(c2) && !(exists|k: int| 0 <= k < i + 1 && (#[trigger] ids[k]).0 == c2)
                            implies v.sparse_sets[c2] == v1.sparse_sets[c2] by {
                            assert(c2 != ids[i as int].0);
                            assert(!(exists|k: int| 0 <= k < i && (#[trigger] ids[k]).0 == c2)) by {
                                if exists|k: int| 0 <= k < i && (#[trigger] ids[k]).0 == c2 {
                                    let k = choose|k: int| 0 <= k < i && (#[trigger] ids[k]).0 == c2;
                                    assert(0 <= k < i + 1 && ids[k].0 == c2);
                                }
                            }
                        }
                        self.sparse_sets.lemma_wf();
                        lemma_sparse_write_keeps(before, v, id.0, e);
                        assert forall|k: int| 0 <= k < i + 1 implies written(v, e, #[trigger] ids[k], vals[k]@, tid, row) by {
                            if k < i {
                                assert(written(before, e, ids[k], vals[k]@, tid, row));
                                assert(ids[k] != id);
                                if v1.components[ids[k].0 as int].storage_type == StorageType::SparseSet {
                                    assert(ids[k].0 != id.0);
                                    assert(v.sparse_sets[ids[k].0] == before.sparse_sets[ids[k].0]);
                                }
                            } else {
                                assert(ids[k] == id);
                            }
                        }
                        assert forall|c2: usize| #[trigger] v.sparse_sets.contains_key(c2) implies v.sparse_sets[c2].len() == v1.sparse_sets[c2].len()
                            + if exists|k: int| 0 <= k < i + 1 && (#[trigger] ids[k]).0 == c2 { 1nat } else { 0nat } by {
                            assert(before.sparse_sets[c2].len() == v1.sparse_sets[c2].len()
                                + if exists|k: int| 0 <= k < i && (#[trigger] ids[k]).0 == c2 { 1nat } else { 0nat });
                            if c2 != id.0 {
                                if exists|k: int| 0 <= k < i + 1 && (#[trigger] ids[k]).0 == c2 {
                                    let k = choose|k: int| 0 <= k < i + 1 && (#[trigger] ids[k]).0 == c2;
                                    assert(0 <= k < i);
                                }
                            } else {
                                assert(ids[i as int].0 == c2);
                            }
                        }
                    }
                },
            }
            i = i + 1;
        }
        proof {
            let v = self@;
            assert forall|c: usize| #[trigger] v.sparse_sets.contains_key(c) implies (v.sparse_sets[c].has(e)
                <==> v.entities.contains(e) && v.archetypes[v.loc(e).archetype_id.0 as int].sparse_set_components.contains(ComponentId(c))) by {
                assert(v1.components[c as int].storage_type == StorageType::SparseSet);
                if v.sparse_sets[c].has(e) {
                    let k = choose|k: int| 0 <= k < ids.len() && (#[trigger] ids[k]).0 == c;
                    assert(ids[k] == ComponentId(c));
                    assert(ids.to_set().contains(ComponentId(c)));
                    assert(of_class(v1.components, ids, StorageType::SparseSet).contains(ComponentId(c)));
                    assert(v1.archetypes[arch.0 as int].sparse_set_components.to_set().contains(ComponentId(c)));
                }
                if v.archetypes[arch.0 as int].sparse_set_components.contains(ComponentId(c)) {
                    assert(v1.archetypes[arch.0 as int].sparse_set_components.to_set().contains(ComponentId(c)));
                    assert(of_class(v1.components, ids, StorageType::SparseSet).contains(ComponentId(c)));
                    assert(ids.to_set().contains(ComponentId(c)));
                    let k = choose|k: int| 0 <= k < ids.len() && ids[k] == ComponentId(c);
                    assert(ids[k].0 == c);
                }
            }
            lemma_linked_from_except(v, e);
            self.tables.lemma_wf();
            assert forall|k: int| 0 <= k < vals.len() implies v.has_component(e, #[trigger] ids[k])
                && v.component_value(e, ids[k]) == vals[k]@ by {
                assert(written(v, e, ids[k], vals[k]@, tid, row));
                assert(ids.to_set().contains(ids[k]));
                if v1.components[ids[k].0 as int].storage_type == StorageType::Table {
                    assert(of_class(v1.components, ids, StorageType::Table).contains(ids[k]));
                    assert(v1.archetypes[arch.0 as int].table_components.to_set().contains(ids[k]));
                } else {
                    assert(of_class(v1.components, ids, StorageType::SparseSet).contains(ids[k]));
                    assert(v1.archetypes[arch.0 as int].sparse_set_components.to_set().contains(ids[k]));
                }
            }
        }
    }

    /// Spawns an entity with the values of a bundle: registers the bundle's
    /// components and the bundle itself, then places the entity in the
    /// archetype of exactly those components. Fails, spawning nothing, where
    /// two descriptors share a type key.
    #[verifier::spinoff_prover]
    pub fn spawn(&mut self, bundle: Bundle) -> (r: Result<Entity, DuplicateComponents>)
        requires
            old(self).wf(),
            bundle_fits(old(self)@.components, bundle),
            old(self)@.can_spawn_with(bundle.descriptors@.len()),
            old(self)@.bundles.len() + 1 < usize::MAX,
        ensures
            final(self).wf(),
            r is Ok <==> !repeats_type_key(bundle.descriptors@),
            r matches Ok(e) ==> final(self)@.entities.contains(e),
            r matches Ok(e) ==> forall|i: int| 0 <= i < bundle.descriptors@.len()
                ==> #[trigger] holds_value(final(self)@, e, bundle.descriptors@[i], bundle.values@[i]@),
            r matches Ok(e) ==> spawned_from_bundle(old(self)@, final(self)@, e),
            r is Err ==> {
                &&& final(self)@.entities == old(self)@.entities
                &&& final(self)@.archetypes == old(self)@.archetypes
                &&& final(self)@.tables == old(self)@.tables
                &&& final(self)@.bundles == old(self)@.bundles
            },
    {
        let ghost bd = bundle.descriptors@;
        let ghost bv = bundle.values@;
        let Bundle { name, descriptors, values } = bundle;
        proof {
            assert(descriptors@ == bd);
            assert(values@ == bv);
        }
        let ids = self.component_ids(&descriptors);
        let ghost vc = self@;
        proof {
            self.components.lemma_keys_unique();
            let ds = descriptors@;
            assert(crate::bundle::has_duplicates(ids@) <==> repeats_type_key(ds)) by {
                if crate::bundle::has_duplicates(ids@) {
                    let (i, j) = choose|i: int, j: int| 0 <= i < j < ids@.len() && ids@[i] == ids@[j];
                    assert(vc.components[ids@[i].0 as int].type_id == ds[i].type_id);
                    assert(vc.components[ids@[j].0 as int].type_id == ds[j].type_id);
                    if ds[i].type_id is None {
                        assert(ids@[i] != ids@[j]);
                    }
                }
                if repeats_type_key(ds) {
                    let (i, j) = choose|i: int, j: int| 0 <= i < j < ds.len() && (#[trigger] ds[i]).type_id is Some && ds[i].type_id == (#[trigger] ds[j]).type_id;
                    assert(vc.components[ids@[i].0 as int].type_id == ds[i].type_id);
                    assert(vc.components[ids@[j].0 as int].type_id == ds[j].type_id);
                    if ids@[i] != ids@[j] {
                        assert(ids@[i].0 != ids@[j].0);
                    }
                }
            }
        }
        let bundle_id = match self.bundles.init_info(name.as_str(), &self.components, crate::bundle::copy_ids(&ids)) {
            Ok(b) => b,
            Err(e) => {
                return Err(e);
            },
        };
        proof {
            let v = self@;
            if bundle_id.0 >= vc.bundles.len() {
                lemma_edges_bundles_grow(vc.archetypes, vc.components, vc.bundles, ids@);
                assert(v.bundles == vc.bundles.push(ids@));
            } else {
                assert(v.bundles == vc.bundles);
            }
            assert(edges_ok(v.archetypes, v.components, v.bundles));
            assert(vc.registries_ok());
            assert(v.archetypes == vc.archetypes && v.components == vc.components && v.tables == vc.tables && v.sparse_sets == vc.sparse_sets);
            assert(classes_ok(v.archetypes, v.components));
            assert(tables_linked(v.archetypes, v.tables));
            assert forall|b: int, k: int| 0 <= b < v.bundles.len() && 0 <= k < v.bundles[b].len()
                implies (#[trigger] v.bundles[b][k]).0 < v.components.len() by {
                if b < vc.bundles.len() {
                    assert(v.bundles[b] == vc.bundles[b]);
                }
            }
            assert(v.registries_ok());
            assert forall|c: usize| #[trigger] v.sparse_sets.contains_key(c) implies v.sparse_sets[c].len() + 1 < u32::MAX by {
                assert(v.sparse_sets == vc.sparse_sets);
                if old(self)@.sparse_sets.contains_key(c) {
                    assert(vc.sparse_sets[c] == old(self)@.sparse_sets[c]);
                } else {
                    assert(vc.sparse_sets[c].len() == 0);
                }
            }
            self.sparse_sets.lemma_wf();
            assert forall|c: usize| #[trigger] v.sparse_sets.contains_key(c) implies v.sparse_sets[c].column.can_push() by {
                assert(v.sparse_sets == vc.sparse_sets);
                if old(self)@.sparse_sets.contains_key(c) {
                    assert(vc.sparse_sets[c] == old(self)@.sparse_sets[c]);
                } else {
                    assert(vc.sparse_sets[c].len() == 0);
                    assert(v.sparse_sets[c].wf());
                }
            }
            assert(v.tables == old(self)@.tables);
            assert(v.columns_can_grow());
            assert forall|k: int| 0 <= k < values@.len() implies (#[trigger] values@[k])@.len()
                == v.components[v.bundles[bundle_id.0 as int][k].0 as int].layout.size by {
                assert(v.bundles[bundle_id.0 as int] == ids@);
            }
        }
        let ghost vals = values@;
        let ghost vs = self@;
        let e = self.spawn_with_id(bundle_id, values);
        proof {
            let v = self@;
            assert(vs.bundles[bundle_id.0 as int] == ids@);
            assert forall|i: int| 0 <= i < descriptors@.len() implies #[trigger] holds_value(v, e, descriptors@[i], vals[i]@) by {
                let c = ids@[i];
                assert(v.bundles[bundle_id.0 as int][i] == c);
                assert(vc.components[c.0 as int].type_id == descriptors@[i].type_id);
                assert(v.components == vc.components);
            }
            assert(bd == descriptors@);
            assert(vals == bv);
            let o = old(self)@;
            let ids_b = v.bundles[bundle_id.0 as int];
            assert(vs.archetypes == o.archetypes && vs.tables == o.tables && vs.entities == o.entities);
            if o.entities.flushed() {
                assert(spawn_counts(vs, v, e, ids_b));
                assert forall|x: int| 0 <= x < v.archetypes.len() implies #[trigger] v.archetype_len(x) == o.archetype_len(x) + if x == v.loc(e).archetype_id.0 as int { 1nat } else { 0nat } by {
                    assert(v.archetype_len(x) == vs.archetype_len(x) + if x == v.loc(e).archetype_id.0 as int { 1nat } else { 0nat });
                }
                assert forall|x: int| 0 <= x < v.tables.len() implies #[trigger] v.table_len(x) == o.table_len(x) + if x == v.loc(e).table_id.0 as int { 1nat } else { 0nat } by {
                    assert(v.table_len(x) == vs.table_len(x) + if x == v.loc(e).table_id.0 as int { 1nat } else { 0nat });
                }
                assert forall|c: usize| #[trigger] o.sparse_sets.contains_key(c) implies v.sparse_sets.contains_key(c)
                    && v.sparse_sets[c].len() == o.sparse_sets[c].len() + if ids_b.contains(ComponentId(c)) { 1nat } else { 0nat } by {
                    assert(vc.sparse_sets.contains_key(c) && vc.sparse_sets[c] == o.sparse_sets[c]);
                    assert(vs.sparse_sets == vc.sparse_sets);
                }
                assert(spawn_counts(o, v, e, ids_b));
            }
            assert(spawned_as(o, v, e, ids_b));
            assert(0 <= bundle_id.0 < v.bundles.len());
            assert(spawned_as(o, v, e, v.bundles[bundle_id.0 as int]));
            assert(spawned_from_bundle(o, v, e));
        }
        Ok(e)
    }

    /// Clamps every stored tick, in every table and sparse set, to at most
    /// `MAX_CHANGE_AGE` behind the world's change tick.
    #[verifier::spinoff_prover]
    pub fn check_change_ticks(&mut self)
        requires
            old(self).wf(),
        ensures
            final(self).wf(),
            final(self)@.entities == old(self)@.entities,
            final(self)@.archetypes == old(self)@.archetypes,
            final(self)@.change_tick == old(self)@.change_tick,
            final(self)@.tables.len() == old(self)@.tables.len(),
            forall|t: int, c: int| 0 <= t < final(self)@.tables.len() && 0 <= c < final(self)@.tables[t].columns.len()
                ==> (#[trigger] final(self)@.tables[t].columns[c]).ticks_recent(final(self)@.change_tick)
                && final(self)@.tables[t].columns[c].values == old(self)@.tables[t].columns[c].values,
            forall|c: usize| #[trigger] final(self)@.sparse_sets.contains_key(c) ==> final(self)@.sparse_sets[c].column.ticks_recent(final(self)@.change_tick)
                && final(self)@.sparse_sets[c].column.values == old(self)@.sparse_sets[c].column.values
                && crate::table::signals_kept(old(self)@.sparse_sets[c].column, final(self)@.sparse_sets[c].column, final(self)@.change_tick),
            forall|t: int, c: int| 0 <= t < final(self)@.tables.len() && 0 <= c < final(self)@.tables[t].columns.len()
                ==> crate::table::signals_kept(old(self)@.tables[t].columns[c], #[trigger] final(self)@.tables[t].columns[c], final(self)@.change_tick),
    {
        let ghost v0 = self@;
        let tick = Tick::new(self.change_tick);
        proof {
            self.tables.lemma_wf();
        }
        self.tables.check_change_ticks(tick);
        self.sparse_sets.check_change_ticks(tick);
        self.last_check_tick = tick;
        proof {
            let v = self@;
            self.tables.lemma_wf();
            self.sparse_sets.lemma_wf();
            assert forall|t: int| 0 <= t < v0.tables.len() implies (#[trigger] v.tables[t]).ids == v0.tables[t].ids by {}
            lemma_same_graph(v0.archetypes, v.archetypes, v.components, v.bundles, v0.tables, v.tables);
            assert forall|t: int, k: int| 0 <= t < v.tables.len() && 0 <= k < v.tables[t].ids.len()
                implies (#[trigger] v.tables[t].ids[k]).0 < v.components.len()
                && v.tables[t].columns[k].layout == v.components[v.tables[t].ids[k].0 as int].layout by {
                assert(v0.tables[t].ids[k] == v.tables[t].ids[k]);
                assert(v0.tables[t].wf());
            }
            assert forall|c: usize| #[trigger] v.sparse_sets.contains_key(c) <==> c < v.components.len()
                && v.components[c as int].storage_type == StorageType::SparseSet by {
                assert(v.sparse_sets.dom().contains(c) == v0.sparse_sets.dom().contains(c));
            }
            assert forall|c: usize| #[trigger] v.sparse_sets.contains_key(c) implies v.sparse_sets[c].column.layout
                == v.components[c as int].layout by {
                assert(v0.sparse_sets.contains_key(c));
            }
            assert(v.registries_ok());
            assert forall|c: usize, e: Entity| #[trigger] v.sparse_sets.contains_key(c) implies (#[trigger] v.sparse_sets[c].has(e)
                <==> v.entities.contains(e) && v.archetypes[v.loc(e).archetype_id.0 as int].sparse_set_components.contains(ComponentId(c))) by {
                assert(v0.sparse_sets.contains_key(c));
                assert(v0.sparse_sets[c].has(e) <==> v0.entities.contains(e) && v0.archetypes[v0.loc(e).archetype_id.0 as int].sparse_set_components.contains(ComponentId(c)));
            }
            assert forall|e: Entity| #[trigger] v.entities.contains(e) implies v.entity_linked(e) by {
                assert(v0.entity_linked(e));
            }
            assert forall|t: int, r: int| 0 <= t < v.tables.len() && 0 <= r < v.tables[t].entities.len()
                implies v.entities.contains(#[trigger] v.tables[t].entities[r])
                && v.loc(v.tables[t].entities[r]).table_id.0 == t
                && v.loc(v.tables[t].entities[r]).table_row.0 == r by {
                assert(v0.entities.contains(v0.tables[t].entities[r]));
            }
            assert(v.linked());
            assert forall|t: int, c: int| 0 <= t < v.tables.len() && 0 <= c < v.tables[t].columns.len()
                implies (#[trigger] v.tables[t].columns[c]).ticks_recent(v.change_tick)
                && v.tables[t].columns[c].values == v0.tables[t].columns[c].values by {
                assert(v0.tables[t].wf());
            }
        }
    }

    /// Takes an entity that is no longer alive out of its archetype, its
    /// table and its sparse sets; the last member of the archetype and the
    /// last row of the table move into the places it leaves.
    #[verifier::spinoff_prover]
    fn detach(&mut self, entity: Entity, loc: EntityLocation)
        requires
            old(self).parts_wf(),
            old(self)@.linked_except_rows(entity),
            entity.index < old(self)@.entities.meta.len(),
            old(self)@.entities.meta[entity.index as int].location == crate::entity::invalid_location(),
            loc.archetype_id.0 < old(self)@.archetypes.len(),
            loc.archetype_row.0 < old(self)@.archetypes[loc.archetype_id.0 as int].entities.len(),
            old(self)@.archetypes[loc.archetype_id.0 as int].entities[loc.archetype_row.0 as int]
                == (crate::archetype::ArchetypeEntity { entity, table_row: loc.table_row }),
            old(self)@.archetypes[loc.archetype_id.0 as int].table_id == loc.table_id,
            loc.table_id.0 < old(self)@.tables.len(),
            loc.table_row.0 < old(self)@.tables[loc.table_id.0 as int].entities.len(),
            old(self)@.tables[loc.table_id.0 as int].entities[loc.table_row.0 as int] == entity,
            forall|b: int, r: int| 0 <= b < old(self)@.archetypes.len() && 0 <= r < old(self)@.archetypes[b].entities.len()
                && #[trigger] old(self)@.archetypes[b].entities[r].entity == entity ==> b == loc.archetype_id.0 && r == loc.archetype_row.0,
            forall|u: int, r: int| 0 <= u < old(self)@.tables.len() && 0 <= r < old(self)@.tables[u].entities.len()
                && #[trigger] old(self)@.tables[u].entities[r] == entity ==> u == loc.table_id.0 && r == loc.table_row.0,
            forall|c: usize| #[trigger] old(self)@.sparse_sets.contains_key(c) ==> (old(self)@.sparse_sets[c].has(entity)
                <==> old(self)@.archetypes[loc.archetype_id.0 as int].sparse_set_components.contains(ComponentId(c))),
        ensures
            final(self).wf(),
            detach_counts(old(self)@, final(self)@, loc, entity),
    {
        let ghost v1 = self@;
        proof {
            self.archetypes.lemma_wf();
            self.tables.lemma_wf();
            self.sparse_sets.lemma_wf();
        }
        let a = loc.archetype_id;
        let sparse_ids = crate::bundle::copy_ids(self.archetypes.at(a).sparse_set_components());
        let mut k: usize = 0;
        while k < sparse_ids.len()
            invariant
                self.parts_wf(),
                self@.linked_except_rows(entity),
                self@.entities == v1.entities,
                self@.archetypes == v1.archetypes,
                self@.tables == v1.tables,
                self@.components == v1.components,
                self@.bundles == v1.bundles,
                self@.change_tick == v1.change_tick,
                self@.archetype_component_count == v1.archetype_component_count,
                self@.sparse_sets.dom() == v1.sparse_sets.dom(),
                a == loc.archetype_id,
                0 <= a.0 < v1.archetypes.len(),
                sparse_ids@ == v1.archetypes[a.0 as int].sparse_set_components,
                entity.index < v1.entities.meta.len(),
                v1.entities.meta[entity.index as int].location == crate::entity::invalid_location(),
                forall|c: usize| #[trigger] v1.sparse_sets.contains_key(c) ==> (v1.sparse_sets[c].has(entity)
                    <==> v1.archetypes[a.0 as int].sparse_set_components.contains(ComponentId(c))),
                k <= sparse_ids.len(),
                forall|c: usize| #[trigger] self@.sparse_sets.contains_key(c) && self@.sparse_sets[c].has(entity)
                    ==> exists|j: int| k <= j < sparse_ids@.len() && sparse_ids@[j] == ComponentId(c),
                forall|c: usize| #[trigger] self@.sparse_sets.contains_key(c) ==> self@.sparse_sets[c].column.capacity == v1.sparse_sets[c].column.capacity
                    && self@.sparse_sets[c].column.len() <= v1.sparse_sets[c].column.len(),
                forall|c: usize| #[trigger] self@.sparse_sets.contains_key(c) ==> self@.sparse_sets[c].len() == v1.sparse_sets[c].len()
                    - if exists|j: int| 0 <= j < k && sparse_ids@[j] == ComponentId(c) { 1int } else { 0int },
                forall|c: usize| #[trigger] self@.sparse_sets.contains_key(c) && !(exists|j: int| 0 <= j < k && sparse_ids@[j] == ComponentId(c))
                    ==> self@.sparse_sets[c] == v1.sparse_sets[c],
                crate::table::strictly_sorted(sparse_ids@),
            decreases sparse_ids.len() - k,
        {
            let c = sparse_ids[k];
            let ghost before = self@;
            proof {
                assert(v1.archetypes[a.0 as int].sparse_set_components.contains(c)) by {
                    assert(sparse_ids@[k as int] == c);
                }
                assert(c.0 < before.components.len() && before.components[c.0 as int].storage_type == StorageType::SparseSet);
                assert(before.sparse_sets.contains_key(c.0));
                assert(!(exists|j: int| 0 <= j < k && sparse_ids@[j] == c)) by {
                    if exists|j: int| 0 <= j < k && sparse_ids@[j] == c {
                        let j = choose|j: int| 0 <= j < k && sparse_ids@[j] == c;
                        assert(sparse_ids@[j].0 < sparse_ids@[k as int].0);
                    }
                }
                assert(before.sparse_sets[c.0] == v1.sparse_sets[c.0]);
                assert(ComponentId(c.0) == c);
                assert(v1.sparse_sets[c.0].has(entity));
            }
            proof {
                self.sparse_sets.lemma_wf();
            }
            self.sparse_sets.remove(c, entity);
            proof {
                let v = self@;
                self.sparse_sets.lemma_wf();
                assert forall|i: usize| #[trigger] v.sparse_sets.contains_key(i) implies v.sparse_sets[i].column.capacity == v1.sparse_sets[i].column.capacity
                    && v.sparse_sets[i].column.len() <= v1.sparse_sets[i].column.len() by {
                    assert(before.sparse_sets.contains_key(i));
                    if i == c.0 {
                        assert(v.sparse_sets[i].wf());
                        assert(before.sparse_sets[i].wf());
                    } else {
                        assert(v.sparse_sets[i] == before.sparse_sets[i]);
                    }
                }
                assert forall|i: usize| #[trigger] v.sparse_sets.contains_key(i) implies v.sparse_sets[i].column.layout
                    == v.components[i as int].layout by {
                    if i != c.0 {
                        assert(v.sparse_sets[i] == before.sparse_sets[i]);
                    }
                }
                assert forall|i: usize| #[trigger] v.sparse_sets.contains_key(i) <==> i < v.components.len()
                    && v.components[i as int].storage_type == StorageType::SparseSet by {
                    assert(v.sparse_sets.dom().contains(i) == before.sparse_sets.dom().contains(i));
                }
                assert(v.registries_ok());
                assert forall|i: usize, z: Entity| #[trigger] v.sparse_sets.contains_key(i) && z != entity implies (#[trigger] v.sparse_sets[i].has(z)
                    <==> v.entities.contains(z) && v.archetypes[v.loc(z).archetype_id.0 as int].sparse_set_components.contains(ComponentId(i))) by {
                    assert(before.sparse_sets[i].has(z) <==> before.entities.contains(z) && before.archetypes[before.loc(z).archetype_id.0 as int].sparse_set_components.contains(ComponentId(i)));
                    if i == c.0 && z.index == entity.index {
                        assert(v.entities == v1.entities);
                        assert(!v.entities.contains(z)) by {
                            assert(v.entities.meta[z.index as int].location == crate::entity::invalid_location());
                        }
                        assert(!v.sparse_sets[i].has(z));
                        assert(!before.sparse_sets[i].has(z)) by {
                            assert(!before.entities.contains(z));
                        }
                    } else if i != c.0 {
                        assert(v.sparse_sets[i] == before.sparse_sets[i]);
                    }
                }
                assert forall|i: usize| #[trigger] v.sparse_sets.contains_key(i) && v.sparse_sets[i].has(entity)
                    implies exists|j: int| k + 1 <= j < sparse_ids@.len() && sparse_ids@[j] == ComponentId(i) by {
                    if i != c.0 {
                        assert(v.sparse_sets[i] == before.sparse_sets[i]);
                        let j = choose|j: int| k <= j < sparse_ids@.len() && sparse_ids@[j] == ComponentId(i);
                        assert(j != k);
                    }
                }
                assert forall|i: usize| #[trigger] v.sparse_sets.contains_key(i) implies v.sparse_sets[i].len() == v1.sparse_sets[i].len()
                    - if exists|j: int| 0 <= j < k + 1 && sparse_ids@[j] == ComponentId(i) { 1int } else { 0int } by {
                    if i != c.0 {
                        assert(v.sparse_sets[i] == before.sparse_sets[i]);
                        if exists|j: int| 0 <= j < k + 1 && sparse_ids@[j] == ComponentId(i) {
                            let j = choose|j: int| 0 <= j < k + 1 && sparse_ids@[j] == ComponentId(i);
                            assert(j != k);
                        }
                    } else {
                        assert(sparse_ids@[k as int] == ComponentId(i));
                        let s0 = v1.sparse_sets[i];
                        assert(s0.has(entity));
                    }
                }
                assert forall|i: usize| #[trigger] v.sparse_sets.contains_key(i) && !(exists|j: int| 0 <= j < k + 1 && sparse_ids@[j] == ComponentId(i))
                    implies v.sparse_sets[i] == v1.sparse_sets[i] by {
                    assert(sparse_ids@[k as int] == c);
                    if i != c.0 {
                        assert(v.sparse_sets[i] == before.sparse_sets[i]);
                        assert(!(exists|j: int| 0 <= j < k && sparse_ids@[j] == ComponentId(i))) by {
                            if exists|j: int| 0 <= j < k && sparse_ids@[j] == ComponentId(i) {
                                let j = choose|j: int| 0 <= j < k && sparse_ids@[j] == ComponentId(i);
                                assert(0 <= j < k + 1);
                            }
                        }
                    }
                }
            }
            k = k + 1;
        }
        let ghost v2 = self@;
        proof {
            assert forall|c: usize| #[trigger] v2.sparse_sets.contains_key(c) implies !v2.sparse_sets[c].has(entity) by {
                if v2.sparse_sets[c].has(entity) {
                    let j = choose|j: int| sparse_ids@.len() <= j < sparse_ids@.len() && sparse_ids@[j] == ComponentId(c);
                }
            }
            assert(v2.archetypes[a.0 as int].entities[loc.archetype_row.0 as int].entity == entity);
        }
        let moved = self.archetypes.swap_remove(a, loc.archetype_row);
        proof {
            self.lemma_parts_keep(v2);
        }
        match moved {
            Some(m) => {
                proof {
                    assert(v2.entities.contains(m.entity));
                    assert(!v2.entities.pending.contains(m.entity.index)) by {
                        if v2.entities.pending.contains(m.entity.index) {
                            let j = choose|j: int| 0 <= j < v2.entities.pending.len() && v2.entities.pending[j] == m.entity.index;
                        }
                    }
                    assert(v2.loc(m.entity).archetype_id == a);
                }
                self.entities.set(m.entity.index, EntityLocation {
                    archetype_id: a,
                    archetype_row: loc.archetype_row,
                    table_id: loc.table_id,
                    table_row: m.table_row,
                });
            },
            None => {},
        }
        let ghost v3 = self@;
        proof {
            let last = v2.archetypes[a.0 as int].entities.len() - 1;
            if (loc.archetype_row.0 as int) < last {
                let m = v2.archetypes[a.0 as int].entities.last();
                assert(v2.loc(m.entity) == EntityLocation {
                    archetype_id: a,
                    archetype_row: ArchetypeRow(last as u32),
                    table_id: v2.archetypes[a.0 as int].table_id,
                    table_row: m.table_row,
                });
                assert(v2.archetypes[a.0 as int].table_id == loc.table_id);
            }
            lemma_despawn_archetype_step(v2, v3, entity, a.0 as int, loc.archetype_row.0 as int);
            assert(self.parts_wf());
            assert(v3.tables[loc.table_id.0 as int].entities[loc.table_row.0 as int] == entity);
        }
        let tmoved = self.tables.swap_remove(loc.table_id, loc.table_row);
        let ghost v4 = self@;
        match tmoved {
            Some(x) => {
                proof {
                    self.lemma_parts_keep(v3);
                    let lastt = v3.tables[loc.table_id.0 as int].entities.len() - 1;
                    assert(v3.tables[loc.table_id.0 as int].entities[lastt] == x);
                    assert(v3.entities.contains(x));
                    assert(v3.entity_linked(x));
                }
                let xl = self.entities.get(x).unwrap();
                proof {
                    assert(!v4.entities.pending.contains(x.index)) by {
                        if v4.entities.pending.contains(x.index) {
                            let j = choose|j: int| 0 <= j < v4.entities.pending.len() && v4.entities.pending[j] == x.index;
                        }
                    }
                }
                self.entities.set(x.index, EntityLocation { table_row: loc.table_row, ..xl });
                self.archetypes.set_entity_table_row(xl.archetype_id, xl.archetype_row, loc.table_row);
            },
            None => {},
        }
        proof {
            let v = self@;
            self.lemma_parts_keep(v3);
            lemma_despawn_table_step(v3, v, entity, loc.table_id.0 as int, loc.table_row.0 as int);
            lemma_linked_from_except_rows(v, entity);
            self.tables.lemma_wf();
            let t = loc.table_id.0 as int;
            assert forall|u: int| 0 <= u < v1.tables.len() implies (#[trigger] v.tables[u]).columns.len() == v1.tables[u].columns.len() by {
                assert(v.tables[u].ids == v1.tables[u].ids);
                assert(v.tables[u].wf() && v1.tables[u].wf());
            }
            assert forall|u: int, c: int| 0 <= u < v1.tables.len() && 0 <= c < v1.tables[u].columns.len()
                implies (#[trigger] v.tables[u].columns[c]).capacity == v1.tables[u].columns[c].capacity
                && v.tables[u].columns[c].len() <= v1.tables[u].columns[c].len() by {
                if u != t {
                    assert(v.tables[u] == v1.tables[u]);
                } else {
                    assert(v.tables[u].columns[c] == v1.tables[u].columns[c].swap_remove(loc.table_row.0 as int));
                }
            }
            assert forall|c: usize| #[trigger] v1.sparse_sets.contains_key(c) implies v.sparse_sets.contains_key(c)
                && v.sparse_sets[c].column.capacity == v1.sparse_sets[c].column.capacity
                && v.sparse_sets[c].column.len() <= v1.sparse_sets[c].column.len() by {
                assert(v2.sparse_sets.contains_key(c));
            }
            assert(room_kept(v1, v));
        }
    }

    /// Moves a live entity to the archetype of exactly the components
    /// `ids`, with `values` as their values, keeping its identity.
    #[verifier::spinoff_prover]
    fn relocate(&mut self, entity: Entity, ids: Vec<ComponentId>, values: Vec<Vec<u8>>)
        requires
            old(self).wf(),
            old(self)@.entities.contains(entity),
            !crate::bundle::has_duplicates(ids@),
            forall|k: int| 0 <= k < ids@.len() ==> (#[trigger] ids@[k]).0 < old(self)@.components.len(),
            values@.len() == ids@.len(),
            forall|k: int| 0 <= k < values@.len() ==> (#[trigger] values@[k])@.len() == old(self)@.components[ids@[k].0 as int].layout.size,
            old(self)@.can_place(),
            old(self)@.bundles.len() + 1 < usize::MAX,
        ensures
            final(self).wf(),
            final(self)@.entities.contains(entity),
            final(self)@.components == old(self)@.components,
            final(self)@.entities.len == old(self)@.entities.len,
            final(self)@.entities.pending == old(self)@.entities.pending,
            extends_shape(old(self)@.archetypes, final(self)@.archetypes),
            final(self)@.loc(entity).archetype_id.0 < final(self)@.archetypes.len(),
            reaches(final(self)@.archetypes, final(self)@.components, 0, final(self)@.loc(entity).archetype_id.0 as int, ids@),
            forall|k: int| 0 <= k < values@.len() ==> final(self)@.has_component(entity, #[trigger] ids@[k])
                && final(self)@.component_value(entity, ids@[k]) == values@[k]@,
    {
        let ghost v0 = self@;
        proof {
            self.lemma_wf();
            self.bundles.lemma_wf();
        }
        let bundle_id = self.bundles.init_info("", &self.components, crate::bundle::copy_ids(&ids)).unwrap();
        let ghost vb = self@;
        proof {
            if bundle_id.0 >= v0.bundles.len() {
                lemma_edges_bundles_grow(v0.archetypes, v0.components, v0.bundles, ids@);
                assert(vb.bundles == v0.bundles.push(ids@));
            } else {
                assert(vb.bundles == v0.bundles);
            }
            assert(edges_ok(vb.archetypes, vb.components, vb.bundles));
            assert(v0.registries_ok());
            assert(vb.archetypes == v0.archetypes && vb.components == v0.components && vb.tables == v0.tables && vb.sparse_sets == v0.sparse_sets);
            assert(classes_ok(vb.archetypes, vb.components));
            assert(tables_linked(vb.archetypes, vb.tables));
            assert forall|b: int, k: int| 0 <= b < vb.bundles.len() && 0 <= k < vb.bundles[b].len()
                implies (#[trigger] vb.bundles[b][k]).0 < vb.components.len() by {
                if b < v0.bundles.len() {
                    assert(vb.bundles[b] == v0.bundles[b]);
                }
            }
            assert(vb.registries_ok());
            assert(vb.linked()) by {
                lemma_linked_frame(v0, vb);
            }
        }
        let loc = self.entities.get(entity).unwrap();
        self.entities.set(entity.index, EntityLocation::invalid());
        let ghost v1 = self@;
        proof {
            self.archetypes.lemma_wf();
            self.tables.lemma_wf();
            self.sparse_sets.lemma_wf();
            lemma_despawn_free_step(vb, v1, entity, entity.generation);
            assert(self.parts_wf()) by {
                assert(vb.registries_ok());
                assert(v1.archetypes == vb.archetypes && v1.tables == vb.tables && v1.sparse_sets == vb.sparse_sets);
                assert(v1.components == vb.components && v1.bundles == vb.bundles);
                assert(v1.registries_ok());
            }
            assert forall|c: usize| #[trigger] v1.sparse_sets.contains_key(c) implies (v1.sparse_sets[c].has(entity)
                <==> v1.archetypes[loc.archetype_id.0 as int].sparse_set_components.contains(ComponentId(c))) by {
                assert(vb.sparse_sets.contains_key(c));
            }
        }
        self.detach(entity, loc);
        let ghost v2 = self@;
        proof {
            assert(v2.entities.meta[entity.index as int] == v1.entities.meta[entity.index as int]);
            assert(!v2.entities.pending.contains(entity.index)) by {
                if v2.entities.pending.contains(entity.index) {
                    let j = choose|j: int| 0 <= j < v2.entities.pending.len() && v2.entities.pending[j] == entity.index;
                    assert(v0.entities.pending[j] == entity.index);
                }
            }
            assert(v2.can_place()) by {
                assert forall|a: int| 0 <= a < v2.archetypes.len() implies (#[trigger] v2.archetypes[a]).entities.len() + 1 < u32::MAX by {
                    assert(v2.archetype_len(a) <= v1.archetype_len(a));
                }
                assert forall|t: int| 0 <= t < v2.tables.len() implies (#[trigger] v2.tables[t]).entities.len() + 1 < u32::MAX by {
                    assert(v2.table_len(t) <= v1.table_len(t));
                }
                assert forall|c: usize| #[trigger] v2.sparse_sets.contains_key(c) implies v2.sparse_sets[c].len() + 1 < u32::MAX by {
                    assert(v1.sparse_sets.contains_key(c));
                }
                assert(v1.tables == v0.tables && v1.sparse_sets == v0.sparse_sets);
                assert(v1.columns_can_grow());
                assert(v2.sparse_sets.dom() =~= v1.sparse_sets.dom()) by {
                    assert forall|c: usize| v2.sparse_sets.contains_key(c) implies v1.sparse_sets.contains_key(c) by {
                        assert(v2.components == v1.components);
                    }
                }
                lemma_room_kept(v1, v2);
            }
            assert(v2.bundles[bundle_id.0 as int] == ids@);
        }
        self.spawn_at(entity, bundle_id, values);
        proof {
            let v = self@;
            assert forall|k: int| 0 <= k < values@.len() implies v.has_component(entity, #[trigger] ids@[k])
                && v.component_value(entity, ids@[k]) == values@[k]@ by {
                assert(v.bundles[bundle_id.0 as int][k] == ids@[k]);
            }
        }
    }

    /// The components of a live entity, table components first.
    fn components_of(&self, entity: Entity) -> (r: Vec<ComponentId>)
        requires
            self.wf(),
            self@.entities.contains(entity),
        ensures
            r@ == self@.archetypes[self@.loc(entity).archetype_id.0 as int].table_components
                + self@.archetypes[self@.loc(entity).archetype_id.0 as int].sparse_set_components,
    {
        let loc = self.entities.get(entity).unwrap();
        proof {
            self.lemma_wf();
            assert(self@.entity_linked(entity));
        }
        let archetype = self.archetypes.at(loc.archetype_id);
        let mut out = crate::bundle::copy_ids(archetype.table_components());
        let sparse = archetype.sparse_set_components();
        let mut k: usize = 0;
        let ghost base = out@;
        while k < sparse.len()
            invariant
                k <= sparse.len(),
                out@ == base + sparse@.subrange(0, k as int),
            decreases sparse.len() - k,
        {
            out.push(sparse[k]);
            k = k + 1;
            proof {
                assert(out@ =~= base + sparse@.subrange(0, k as int));
            }
        }
        proof {
            assert(sparse@.subrange(0, sparse@.len() as int) =~= sparse@);
        }
        out
    }

    /// Collects `first` and `first_values`, then those of the entity's own
    /// components that `first` lacks, with their current values.
    #[verifier::spinoff_prover]
    fn merged(&self, entity: Entity, keep: Vec<ComponentId>, first: Vec<ComponentId>, first_values: Vec<Vec<u8>>) -> (r: (Vec<ComponentId>, Vec<Vec<u8>>))
        requires
            self.wf(),
            self@.entities.contains(entity),
            first_values@.len() == first@.len(),
            forall|k: int| 0 <= k < keep@.len() ==> self@.has_component(entity, #[trigger] keep@[k]),
        ensures
            r.0@.len() == r.1@.len(),
            r.0@.len() >= first@.len(),
            r.0@.subrange(0, first@.len() as int) == first@,
            r.1@.subrange(0, first@.len() as int) == first_values@,
            forall|c: ComponentId| r.0@.contains(c) <==> first@.contains(c) || (keep@.contains(c) && !first@.contains(c)),
            forall|k: int| first@.len() <= k < r.0@.len() ==> !first@.contains(#[trigger] r.0@[k]) && keep@.contains(r.0@[k])
                && r.1@[k]@ == self@.component_value(entity, r.0@[k]),
            !crate::bundle::has_duplicates(first@) ==> !crate::bundle::has_duplicates(r.0@),
    {
        let mut ids = first;
        let mut vals = first_values;
        let n0 = ids.len();
        let ghost f = ids@;
        let ghost fv = vals@;
        let mut k: usize = 0;
        while k < keep.len()
            invariant
                self.wf(),
                self@.entities.contains(entity),
                forall|j: int| 0 <= j < keep@.len() ==> self@.has_component(entity, #[trigger] keep@[j]),
                n0 == f.len(),
                k <= keep.len(),
                ids@.len() == vals@.len(),
                ids@.len() >= n0,
                ids@.subrange(0, n0 as int) == f,
                vals@.subrange(0, n0 as int) == fv,
                forall|c: ComponentId| ids@.contains(c) <==> f.contains(c) || (keep@.subrange(0, k as int).contains(c) && !f.contains(c)),
                forall|j: int| n0 <= j < ids@.len() ==> !f.contains(#[trigger] ids@[j]) && keep@.contains(ids@[j])
                    && vals@[j]@ == self@.component_value(entity, ids@[j]),
                !crate::bundle::has_duplicates(f) ==> !crate::bundle::has_duplicates(ids@),
            decreases keep.len() - k,
        {
            let c = keep[k];
            let ghost prev_ids = ids@;
            let ghost prev_vals = vals@;
            if !crate::archetype::contains_id(&ids, c) {
                let v = self.get_component(entity, c).unwrap();
                ids.push(c);
                vals.push(crate::blob_vec::copy_bytes(v));
                proof {
                    assert(ids@.subrange(0, n0 as int) =~= prev_ids.subrange(0, n0 as int));
                    assert(vals@.subrange(0, n0 as int) =~= prev_vals.subrange(0, n0 as int));
                    assert(!f.contains(c)) by {
                        if f.contains(c) {
                            let j = choose|j: int| 0 <= j < f.len() && f[j] == c;
                            assert(prev_ids.subrange(0, n0 as int)[j] == c);
                            assert(prev_ids[j] == c);
                        }
                    }
                    assert(keep@.contains(c)) by {
                        assert(keep@[k as int] == c);
                    }
                    if !crate::bundle::has_duplicates(f) {
                        assert(!crate::bundle::has_duplicates(ids@)) by {
                            if crate::bundle::has_duplicates(ids@) {
                                let (a, b) = choose|a: int, b: int| 0 <= a < b < ids@.len() && ids@[a] == ids@[b];
                                if b == ids@.len() - 1 {
                                    assert(prev_ids[a] == c);
                                } else {
                                    assert(prev_ids[a] == prev_ids[b]);
                                }
                            }
                        }
                    }
                }
            }
            proof {
                assert(ids@ == prev_ids || ids@ == prev_ids.push(c));
                assert(ids@ == prev_ids ==> prev_ids.contains(c));
                assert forall|x: ComponentId| ids@.contains(x) <==> f.contains(x) || (keep@.subrange(0, k + 1).contains(x) && !f.contains(x)) by {
                    assert(keep@.subrange(0, k + 1)[k as int] == c);
                    assert(prev_ids.contains(x) <==> f.contains(x) || (keep@.subrange(0, k as int).contains(x) && !f.contains(x)));
                    if x == c {
                        if ids@ != prev_ids {
                            assert(ids@[ids@.len() - 1] == c);
                        }
                    } else {
                        assert(ids@.contains(x) <==> prev_ids.contains(x)) by {
                            if ids@.contains(x) {
                                let j = choose|j: int| 0 <= j < ids@.len() && ids@[j] == x;
                                if ids@ != prev_ids {
                                    assert(j < prev_ids.len());
                                    assert(prev_ids[j] == x);
                                }
                            }
                            if prev_ids.contains(x) {
                                let j = choose|j: int| 0 <= j < prev_ids.len() && prev_ids[j] == x;
                                assert(ids@[j] == x);
                            }
                        }
                        assert(keep@.subrange(0, k + 1).contains(x) <==> keep@.subrange(0, k as int).contains(x)) by {
                            if keep@.subrange(0, k + 1).contains(x) {
                                let j = choose|j: int| 0 <= j < k + 1 && #[trigger] keep@.subrange(0, k + 1)[j] == x;
                                assert(j < k);
                                assert(keep@.subrange(0, k as int)[j] == x);
                            }
                            if keep@.subrange(0, k as int).contains(x) {
                                let j = choose|j: int| 0 <= j < k && #[trigger] keep@.subrange(0, k as int)[j] == x;
                                assert(keep@.subrange(0, k + 1)[j] == x);
                            }
                        }
                    }
                }
            }
            k = k + 1;
        }
        proof {
            assert(keep@.subrange(0, keep@.len() as int) =~= keep@);
        }
        (ids, vals)
    }

    /// Adds the components of a registered bundle to a live entity, or
    /// overwrites those it has; its other components keep their values.
    #[verifier::spinoff_prover]
    pub fn insert_with_id(&mut self, entity: Entity, bundle_id: BundleId, values: Vec<Vec<u8>>) -> (r: Result<(), NoSuchEntity>)
        requires
            old(self).wf(),
            bundle_id.0 < old(self)@.bundles.len(),
            values@.len() == old(self)@.bundles[bundle_id.0 as int].len(),
            forall|k: int| 0 <= k < values@.len() ==> (#[trigger] values@[k])@.len()
                == old(self)@.components[old(self)@.bundles[bundle_id.0 as int][k].0 as int].layout.size,
            old(self)@.can_place(),
            old(self)@.bundles.len() + 1 < usize::MAX,
        ensures
            final(self).wf(),
            r is Ok <==> old(self)@.entities.contains(entity),
            r is Err ==> final(self)@ == old(self)@,
            r is Ok ==> inserted(old(self)@, final(self)@, entity, old(self)@.bundles[bundle_id.0 as int], values@.map_values(|v: Vec<u8>| v@)),
    {
        if self.entities.get(entity).is_none() {
            return Err(NoSuchEntity);
        }
        let ghost v0 = self@;
        proof {
            self.lemma_wf();
            self.bundles.lemma_wf();
        }
        let old_ids = self.components_of(entity);
        let bundle_ids = self.bundles.get(bundle_id).unwrap().iter_components();
        proof {
            let a0 = v0.loc(entity).archetype_id.0 as int;
            assert(v0.entity_linked(entity));
            assert forall|k: int| 0 <= k < old_ids@.len() implies v0.has_component(entity, #[trigger] old_ids@[k]) by {
                let c = old_ids@[k];
                let tl = v0.archetypes[a0].table_components.len();
                if k < tl {
                    assert(v0.archetypes[a0].table_components[k] == c);
                } else {
                    assert(v0.archetypes[a0].sparse_set_components[k - tl] == c);
                }
            }
        }
        let (ids, vals) = self.merged(entity, old_ids, bundle_ids, values);
        proof {
            let n = bundle_ids@.len();
            assert forall|k: int| 0 <= k < ids@.len() implies (#[trigger] ids@[k]).0 < v0.components.len() by {
                if k < n {
                    assert(ids@.subrange(0, n as int)[k] == ids@[k]);
                } else {
                    lemma_value_facts(v0, entity, ids@[k]);
                }
            }
            assert forall|k: int| 0 <= k < vals@.len() implies (#[trigger] vals@[k])@.len() == v0.components[ids@[k].0 as int].layout.size by {
                if k < n {
                    assert(ids@.subrange(0, n as int)[k] == ids@[k]);
                    assert(vals@.subrange(0, n as int)[k] == vals@[k]);
                } else {
                    lemma_value_facts(v0, entity, ids@[k]);
                }
            }
        }
        self.relocate(entity, ids, vals);
        proof {
            let v = self@;
            let n = bundle_ids@.len();
            let a0 = v0.loc(entity).archetype_id.0 as int;
            let a1 = v.loc(entity).archetype_id.0 as int;
            let bset = bundle_ids@;
            assert(v0.entity_linked(entity));
            assert(v.archetypes[0].table_components.to_set() =~= Set::empty());
            assert(v.archetypes[0].sparse_set_components.to_set() =~= Set::empty());
            assert(v.archetypes[a0].table_components == v0.archetypes[a0].table_components);
            assert(v.archetypes[a0].sparse_set_components == v0.archetypes[a0].sparse_set_components);
            assert forall|c: ComponentId| v.archetypes[a1].table_components.to_set().contains(c)
                <==> (v.archetypes[a0].table_components.to_set() + of_class(v.components, bset, StorageType::Table)).contains(c) by {
                assert(v.archetypes[a1].table_components.to_set().contains(c) <==> of_class(v.components, ids@, StorageType::Table).contains(c));
                if v.archetypes[a0].table_components.contains(c) {
                    assert(v0.has_component(entity, c));
                    assert(old_ids@.contains(c)) by {
                        let j = choose|j: int| 0 <= j < v0.archetypes[a0].table_components.len() && v0.archetypes[a0].table_components[j] == c;
                        assert(old_ids@[j] == c);
                    }
                    assert(ids@.contains(c));
                }
                if ids@.contains(c) && !bset.contains(c) {
                    let k = choose|k: int| 0 <= k < ids@.len() && ids@[k] == c;
                    if k < n {
                        assert(ids@.subrange(0, n as int)[k] == c);
                        assert(bset.contains(c));
                    }
                    assert(old_ids@.contains(c));
                    let j = choose|j: int| 0 <= j < old_ids@.len() && old_ids@[j] == c;
                    let tl = v0.archetypes[a0].table_components.len();
                    if j >= tl {
                        assert(v0.archetypes[a0].sparse_set_components[j - tl] == c);
                        assert(v0.archetypes[a0].sparse_set_components.contains(c));
                    } else {
                        assert(v0.archetypes[a0].table_components[j] == c);
                    }
                }
                if bset.contains(c) {
                    let k = choose|k: int| 0 <= k < bset.len() && bset[k] == c;
                    assert(ids@.subrange(0, n as int)[k] == c);
                    assert(ids@.contains(c));
                }
            }
            assert forall|c: ComponentId| v.archetypes[a1].sparse_set_components.to_set().contains(c)
                <==> (v.archetypes[a0].sparse_set_components.to_set() + of_class(v.components, bset, StorageType::SparseSet)).contains(c) by {
                assert(v.archetypes[a1].sparse_set_components.to_set().contains(c) <==> of_class(v.components, ids@, StorageType::SparseSet).contains(c));
                if v.archetypes[a0].sparse_set_components.contains(c) {
                    assert(v0.has_component(entity, c));
                    assert(old_ids@.contains(c)) by {
                        let tl = v0.archetypes[a0].table_components.len();
                        let j = choose|j: int| 0 <= j < v0.archetypes[a0].sparse_set_components.len() && v0.archetypes[a0].sparse_set_components[j] == c;
                        assert(old_ids@[tl + j] == c);
                    }
                    assert(ids@.contains(c));
                }
                if ids@.contains(c) && !bset.contains(c) {
                    let k = choose|k: int| 0 <= k < ids@.len() && ids@[k] == c;
                    if k < n {
                        assert(ids@.subrange(0, n as int)[k] == c);
                        assert(bset.contains(c));
                    }
                    assert(old_ids@.contains(c));
                    let j = choose|j: int| 0 <= j < old_ids@.len() && old_ids@[j] == c;
                    let tl = v0.archetypes[a0].table_components.len();
                    if j >= tl {
                        assert(v0.archetypes[a0].sparse_set_components[j - tl] == c);
                    } else {
                        assert(v0.archetypes[a0].table_components[j] == c);
                        assert(v0.archetypes[a0].table_components.contains(c));
                    }
                }
                if bset.contains(c) {
                    let k = choose|k: int| 0 <= k < bset.len() && bset[k] == c;
                    assert(ids@.subrange(0, n as int)[k] == c);
                    assert(ids@.contains(c));
                }
            }
            assert(v.archetypes[a1].table_components.to_set() =~= v.archetypes[a0].table_components.to_set() + of_class(v.components, bset, StorageType::Table));
            assert(v.archetypes[a1].sparse_set_components.to_set() =~= v.archetypes[a0].sparse_set_components.to_set() + of_class(v.components, bset, StorageType::SparseSet));
            assert forall|k: int| 0 <= k < bset.len() implies v.component_value(entity, #[trigger] bset[k]) == values@[k]@ by {
                assert(ids@.subrange(0, n as int)[k] == bset[k]);
                assert(vals@.subrange(0, n as int)[k] == values@[k]);
            }
            assert forall|c: ComponentId| v0.has_component(entity, c) && !bset.contains(c)
                implies #[trigger] v.has_component(entity, c) && v.component_value(entity, c) == v0.component_value(entity, c) by {
                assert(old_ids@.contains(c)) by {
                    let tl = v0.archetypes[a0].table_components.len();
                    if v0.archetypes[a0].table_components.contains(c) {
                        let j = choose|j: int| 0 <= j < tl && v0.archetypes[a0].table_components[j] == c;
                        assert(old_ids@[j] == c);
                    } else {
                        let j = choose|j: int| 0 <= j < v0.archetypes[a0].sparse_set_components.len() && v0.archetypes[a0].sparse_set_components[j] == c;
                        assert(old_ids@[tl + j] == c);
                    }
                }
                assert(ids@.contains(c));
                let k = choose|k: int| 0 <= k < ids@.len() && ids@[k] == c;
                if k < n {
                    assert(ids@.subrange(0, n as int)[k] == c);
                }
            }
        }
        proof {
            let v = self@;
            assert(bundle_ids@ == v0.bundles[bundle_id.0 as int]);
            assert(inserted(v0, v, entity, v0.bundles[bundle_id.0 as int], values@.map_values(|x: Vec<u8>| x@)));
        }
        Ok(())
    }

    /// Removes the components of a registered bundle from a live entity;
    /// those it lacks are ignored, and its other components keep their
    /// values.
    #[verifier::spinoff_prover]
    pub fn remove_with_id(&mut self, entity: Entity, bundle_id: BundleId) -> (r: Result<(), NoSuchEntity>)
        requires
            old(self).wf(),
            bundle_id.0 < old(self)@.bundles.len(),
            old(self)@.can_place(),
            old(self)@.bundles.len() + 1 < usize::MAX,
        ensures
            final(self).wf(),
            r is Ok <==> old(self)@.entities.contains(entity),
            r is Err ==> final(self)@ == old(self)@,
            r is Ok ==> removed(old(self)@, final(self)@, entity, old(self)@.bundles[bundle_id.0 as int]),
    {
        if self.entities.get(entity).is_none() {
            return Err(NoSuchEntity);
        }
        let ghost v0 = self@;
        proof {
            self.lemma_wf();
            self.bundles.lemma_wf();
        }
        let old_ids = self.components_of(entity);
        let bundle_ids = self.bundles.get(bundle_id).unwrap().iter_components();
        let mut kept: Vec<ComponentId> = Vec::new();
        let mut k: usize = 0;
        while k < old_ids.len()
            invariant
                k <= old_ids.len(),
                forall|c: ComponentId| kept@.contains(c) <==> old_ids@.subrange(0, k as int).contains(c) && !bundle_ids@.contains(c),
                forall|j: int| 0 <= j < kept@.len() ==> old_ids@.contains(#[trigger] kept@[j]),
            decreases old_ids.len() - k,
        {
            let c = old_ids[k];
            let ghost prev = kept@;
            if !crate::archetype::contains_id(&bundle_ids, c) {
                kept.push(c);
            }
            proof {
                assert forall|x: ComponentId| kept@.contains(x) <==> old_ids@.subrange(0, k + 1).contains(x) && !bundle_ids@.contains(x) by {
                    assert(old_ids@.subrange(0, k + 1)[k as int] == c);
                    if old_ids@.subrange(0, k + 1).contains(x) {
                        let j = choose|j: int| 0 <= j < k + 1 && #[trigger] old_ids@.subrange(0, k + 1)[j] == x;
                        if j < k {
                            assert(old_ids@.subrange(0, k as int)[j] == x);
                        }
                    }
                    if old_ids@.subrange(0, k as int).contains(x) {
                        let j = choose|j: int| 0 <= j < k && #[trigger] old_ids@.subrange(0, k as int)[j] == x;
                        assert(old_ids@.subrange(0, k + 1)[j] == x);
                    }
                    if kept@.contains(x) {
                        let j = choose|j: int| 0 <= j < kept@.len() && kept@[j] == x;
                        if j < prev.len() {
                            assert(prev[j] == x);
                        }
                    }
                    if prev.contains(x) {
                        let j = choose|j: int| 0 <= j < prev.len() && prev[j] == x;
                        assert(kept@[j] == x);
                    }
                    if x == c && !bundle_ids@.contains(x) {
                        assert(kept@[kept@.len() - 1] == c);
                    }
                }
                assert forall|j: int| 0 <= j < kept@.len() implies old_ids@.contains(#[trigger] kept@[j]) by {
                    if j < prev.len() {
                        assert(kept@[j] == prev[j]);
                    } else {
                        assert(old_ids@[k as int] == c);
                    }
                }
            }
            k = k + 1;
        }
        proof {
            assert(old_ids@.subrange(0, old_ids@.len() as int) =~= old_ids@);
            let a0 = v0.loc(entity).archetype_id.0 as int;
            assert(v0.entity_linked(entity));
            assert forall|j: int| 0 <= j < kept@.len() implies v0.has_component(entity, #[trigger] kept@[j]) by {
                let c = kept@[j];
                let i = choose|i: int| 0 <= i < old_ids@.len() && old_ids@[i] == c;
                let tl = v0.archetypes[a0].table_components.len();
                if i < tl {
                    assert(v0.archetypes[a0].table_components[i] == c);
                } else {
                    assert(v0.archetypes[a0].sparse_set_components[i - tl] == c);
                }
            }
        }
        let (ids, vals) = self.merged(entity, kept, Vec::new(), Vec::new());
        proof {
            assert(!crate::bundle::has_duplicates(Seq::<ComponentId>::empty()));
            assert forall|k: int| 0 <= k < ids@.len() implies (#[trigger] ids@[k]).0 < v0.components.len() by {
                lemma_value_facts(v0, entity, ids@[k]);
            }
            assert forall|k: int| 0 <= k < vals@.len() implies (#[trigger] vals@[k])@.len() == v0.components[ids@[k].0 as int].layout.size by {
                lemma_value_facts(v0, entity, ids@[k]);
            }
        }
        self.relocate(entity, ids, vals);
        proof {
            let v = self@;
            let a0 = v0.loc(entity).archetype_id.0 as int;
            let a1 = v.loc(entity).archetype_id.0 as int;
            let bset = bundle_ids@;
            assert(v0.entity_linked(entity));
            assert(v.archetypes[0].table_components.to_set() =~= Set::empty());
            assert(v.archetypes[0].sparse_set_components.to_set() =~= Set::empty());
            assert(v.archetypes[a0].table_components == v0.archetypes[a0].table_components);
            assert(v.archetypes[a0].sparse_set_components == v0.archetypes[a0].sparse_set_components);
            let tl = v0.archetypes[a0].table_components.len();
            assert forall|c: ComponentId| v.archetypes[a1].table_components.to_set().contains(c)
                <==> v.archetypes[a0].table_components.to_set().difference(bset.to_set()).contains(c) by {
                assert(v.archetypes[a1].table_components.to_set().contains(c) <==> of_class(v.components, ids@, StorageType::Table).contains(c));
                if v.archetypes[a0].table_components.contains(c) && !bset.contains(c) {
                    let j = choose|j: int| 0 <= j < tl && v0.archetypes[a0].table_components[j] == c;
                    assert(old_ids@[j] == c);
                    assert(kept@.contains(c));
                    assert(ids@.contains(c));
                }
                if ids@.contains(c) {
                    assert(kept@.contains(c));
                    let i = choose|i: int| 0 <= i < old_ids@.len() && old_ids@[i] == c;
                    if i >= tl {
                        assert(v0.archetypes[a0].sparse_set_components[i - tl] == c);
                        assert(v0.archetypes[a0].sparse_set_components.contains(c));
                    } else {
                        assert(v0.archetypes[a0].table_components[i] == c);
                    }
                }
            }
            assert forall|c: ComponentId| v.archetypes[a1].sparse_set_components.to_set().contains(c)
                <==> v.archetypes[a0].sparse_set_components.to_set().difference(bset.to_set()).contains(c) by {
                assert(v.archetypes[a1].sparse_set_components.to_set().contains(c) <==> of_class(v.components, ids@, StorageType::SparseSet).contains(c));
                if v.archetypes[a0].sparse_set_components.contains(c) && !bset.contains(c) {
                    let j = choose|j: int| 0 <= j < v0.archetypes[a0].sparse_set_components.len() && v0.archetypes[a0].sparse_set_components[j] == c;
                    assert(old_ids@[tl + j] == c);
                    assert(kept@.contains(c));
                    assert(ids@.contains(c));
                }
                if ids@.contains(c) {
                    assert(kept@.contains(c));
                    let i = choose|i: int| 0 <= i < old_ids@.len() && old_ids@[i] == c;
                    if i >= tl {
                        assert(v0.archetypes[a0].sparse_set_components[i - tl] == c);
                    } else {
                        assert(v0.archetypes[a0].table_components[i] == c);
                        assert(v0.archetypes[a0].table_components.contains(c));
                    }
                }
            }
            assert(v.archetypes[a1].table_components.to_set() =~= v.archetypes[a0].table_components.to_set().difference(bset.to_set()));
            assert(v.archetypes[a1].sparse_set_components.to_set() =~= v.archetypes[a0].sparse_set_components.to_set().difference(bset.to_set()));
            assert forall|c: ComponentId| v0.has_component(entity, c) && !bset.contains(c)
                implies #[trigger] v.has_component(entity, c) && v.component_value(entity, c) == v0.component_value(entity, c) by {
                assert(old_ids@.contains(c)) by {
                    if v0.archetypes[a0].table_components.contains(c) {
                        let j = choose|j: int| 0 <= j < tl && v0.archetypes[a0].table_components[j] == c;
                        assert(old_ids@[j] == c);
                    } else {
                        let j = choose|j: int| 0 <= j < v0.archetypes[a0].sparse_set_components.len() && v0.archetypes[a0].sparse_set_components[j] == c;
                        assert(old_ids@[tl + j] == c);
                    }
                }
                assert(kept@.contains(c));
                assert(ids@.contains(c));
                let k = choose|k: int| 0 <= k < ids@.len() && ids@[k] == c;
                assert(v.has_component(entity, ids@[k]) && v.component_value(entity, ids@[k]) == vals@[k]@);
                assert(vals@[k]@ == v0.component_value(entity, ids@[k]));
            }
            assert(bset == v0.bundles[bundle_id.0 as int]);
            assert(v.entities.contains(entity));
            assert(0 <= a0 < v0.archetypes.len());
            assert(forall|c: ComponentId| v0.has_component(entity, c) && !v0.bundles[bundle_id.0 as int].contains(c)
                ==> #[trigger] v.has_component(entity, c) && v.component_value(entity, c) == v0.component_value(entity, c));
            assert(crate::bundle::removes(v.archetypes, a0, a1, bset));
            assert(extends_shape(v0.archetypes, v.archetypes));
            assert(0 <= a1 < v.archetypes.len());
            assert(removed(v0, v, entity, v0.bundles[bundle_id.0 as int]));
        }
        Ok(())
    }

    /// Registers the components of a bundle's descriptors and the bundle
    /// itself; fails where two descriptors share a type key.
    #[verifier::spinoff_prover]
    pub fn init_bundle(&mut self, bundle_type_name: &str, descriptors: &Vec<ComponentDescriptor>) -> (r: Result<BundleId, DuplicateComponents>)
        requires
            old(self).wf(),
            old(self)@.components.len() + descriptors@.len() < u32::MAX,
            forall|i: int| 0 <= i < descriptors@.len() ==> descriptor_fits(old(self)@.components, #[trigger] descriptors@[i]),
            forall|i: int, j: int| 0 <= i < descriptors@.len() && 0 <= j < descriptors@.len()
                && (#[trigger] descriptors@[i]).type_id is Some && descriptors@[i].type_id == (#[trigger] descriptors@[j]).type_id
                ==> descriptors@[i].layout == descriptors@[j].layout && descriptors@[i].storage_type == descriptors@[j].storage_type,
        ensures
            final(self).wf(),
            final(self)@.entities == old(self)@.entities,
            final(self)@.archetypes == old(self)@.archetypes,
            final(self)@.tables == old(self)@.tables,
            r matches Ok(b) ==> b.0 < final(self)@.bundles.len() && final(self)@.bundles[b.0 as int].len() == descriptors@.len()
                && forall|i: int| 0 <= i < descriptors@.len() ==> {
                    let c = final(self)@.bundles[b.0 as int][i];
                    &&& c.0 < final(self)@.components.len()
                    &&& final(self)@.components[c.0 as int].type_id == (#[trigger] descriptors@[i]).type_id
                    &&& final(self)@.components[c.0 as int].layout == descriptors@[i].layout
                },
            final(self)@.bundles.len() <= old(self)@.bundles.len() + 1,
            final(self)@.components.len() <= old(self)@.components.len() + descriptors@.len(),
            final(self)@.archetype_component_count == old(self)@.archetype_component_count,
            forall|c: usize| #[trigger] final(self)@.sparse_sets.contains_key(c) ==> final(self)@.sparse_sets[c].len() == 0
                || (old(self)@.sparse_sets.contains_key(c) && final(self)@.sparse_sets[c] == old(self)@.sparse_sets[c]),
            r is Ok <==> !repeats_type_key(descriptors@),
            r is Err ==> final(self)@.bundles == old(self)@.bundles,
            r matches Err(e) ==> {
                &&& e.bundle_name@ == bundle_type_name@
                &&& e.duplicates@.len() > 0
                &&& e.names@ == crate::bundle::join_names(crate::bundle::names_of(final(self)@.components, e.duplicates@))
            },
            r matches Ok(b) ==> forall|i: int| 0 <= i < descriptors@.len() ==>
                final(self)@.components[(#[trigger] final(self)@.bundles[b.0 as int][i]).0 as int].storage_type == descriptors@[i].storage_type,
    {
        let ids = self.component_ids(descriptors);
        let ghost vc = self@;
        proof {
            self.components.lemma_keys_unique();
            let ds = descriptors@;
            assert(crate::bundle::has_duplicates(ids@) <==> repeats_type_key(ds)) by {
                if crate::bundle::has_duplicates(ids@) {
                    let (i, j) = choose|i: int, j: int| 0 <= i < j < ids@.len() && ids@[i] == ids@[j];
                    assert(vc.components[ids@[i].0 as int].type_id == ds[i].type_id);
                    assert(vc.components[ids@[j].0 as int].type_id == ds[j].type_id);
                    if ds[i].type_id is None {
                        assert(ids@[i] != ids@[j]);
                    }
                }
                if repeats_type_key(ds) {
                    let (i, j) = choose|i: int, j: int| 0 <= i < j < ds.len() && (#[trigger] ds[i]).type_id is Some && ds[i].type_id == (#[trigger] ds[j]).type_id;
                    assert(vc.components[ids@[i].0 as int].type_id == ds[i].type_id);
                    assert(vc.components[ids@[j].0 as int].type_id == ds[j].type_id);
                    if ids@[i] != ids@[j] {
                        assert(ids@[i].0 != ids@[j].0);
                    }
                }
            }
        }
        let r = self.bundles.init_info(bundle_type_name, &self.components, crate::bundle::copy_ids(&ids));
        proof {
            let v = self@;
            if r is Ok && r->Ok_0.0 >= vc.bundles.len() {
                lemma_edges_bundles_grow(vc.archetypes, vc.components, vc.bundles, ids@);
                assert(v.bundles == vc.bundles.push(ids@));
            } else {
                assert(v.bundles == vc.bundles);
            }
            assert(edges_ok(v.archetypes, v.components, v.bundles));
            assert(vc.registries_ok());
            assert(v.archetypes == vc.archetypes && v.components == vc.components && v.tables == vc.tables && v.sparse_sets == vc.sparse_sets);
            assert(classes_ok(v.archetypes, v.components));
            assert(tables_linked(v.archetypes, v.tables));
            assert forall|b: int, k: int| 0 <= b < v.bundles.len() && 0 <= k < v.bundles[b].len()
                implies (#[trigger] v.bundles[b][k]).0 < v.components.len() by {
                if b < vc.bundles.len() {
                    assert(v.bundles[b] == vc.bundles[b]);
                }
            }
            assert(v.registries_ok());
            assert(v.linked()) by {
                lemma_linked_frame(vc, v);
            }
            if r is Ok {
                let b = r->Ok_0;
                assert(v.bundles[b.0 as int] == ids@);
            }
            assert forall|c: usize| #[trigger] v.sparse_sets.contains_key(c) implies v.sparse_sets[c].len() == 0
                || (old(self)@.sparse_sets.contains_key(c) && v.sparse_sets[c] == old(self)@.sparse_sets[c]) by {
            }
        }
        r
    }

    /// Despawns a live entity: releases its values, frees its index for
    /// reuse with the next generation, and moves the last member of its
    /// archetype and the last row of its table into the places it leaves.
    #[verifier::spinoff_prover]
    pub fn despawn(&mut self, entity: Entity) -> (r: Result<(), NoSuchEntity>)
        requires
            old(self).wf(),
            old(self)@.entities.flushed(),
        ensures
            final(self).wf(),
            final(self)@.entities.flushed(),
            r is Ok <==> old(self)@.entities.contains(entity),
            r is Err ==> final(self)@ == old(self)@,
            r is Ok ==> despawn_counts(old(self)@, final(self)@, entity),
            r is Ok ==> !final(self)@.entities.contains(entity)
                && final(self)@.entities.meta[entity.index as int].generation == crate::entity::next_generation(entity.generation)
                && final(self)@.entities.pending == old(self)@.entities.pending.push(entity.index),
    {
        let ghost v0 = self@;
        proof {
            self.lemma_wf();
        }
        let loc = match self.entities.free(entity) {
            Ok(l) => l,
            Err(e) => {
                return Err(e);
            },
        };
        let ghost v1 = self@;
        proof {
            self.archetypes.lemma_wf();
            self.tables.lemma_wf();
            self.sparse_sets.lemma_wf();
            lemma_despawn_free_step(v0, v1, entity, crate::entity::next_generation(entity.generation));
            assert(self.parts_wf()) by {
                assert(v0.registries_ok());
                assert(v1.archetypes == v0.archetypes && v1.tables == v0.tables && v1.sparse_sets == v0.sparse_sets);
                assert(v1.components == v0.components && v1.bundles == v0.bundles);
                assert(v1.registries_ok());
            }
            assert forall|c: usize| #[trigger] v1.sparse_sets.contains_key(c) implies (v1.sparse_sets[c].has(entity)
                <==> v1.archetypes[loc.archetype_id.0 as int].sparse_set_components.contains(ComponentId(c))) by {
                assert(v0.sparse_sets.contains_key(c));
            }
        }
        self.detach(entity, loc);
        proof {
            let v = self@;
            assert(v1.archetypes == v0.archetypes && v1.tables == v0.tables && v1.sparse_sets == v0.sparse_sets);
            assert(loc == v0.loc(entity));
            assert forall|c: usize| #[trigger] v0.sparse_sets.contains_key(c) implies v.sparse_sets.contains_key(c)
                && v.sparse_sets[c].len() + (if v0.archetypes[loc.archetype_id.0 as int].sparse_set_components.contains(ComponentId(c)) { 1nat } else { 0nat })
                == v0.sparse_sets[c].len() by {
                assert(v1.sparse_sets.contains_key(c));
            }
            assert(despawn_counts(v0, v, entity));
        }
        Ok(())
    }

    /// Gives every reserved entity its place in the archetype without
    /// components.
    #[verifier::spinoff_prover]
    pub fn flush_entities(&mut self)
        requires
            old(self).wf(),
            old(self)@.archetypes.len() > 0,
            old(self)@.tables.len() > 0,
            old(self)@.archetypes[0].entities.len() + old(self)@.entities.flush().0.len() < u32::MAX,
            old(self)@.tables[0].entities.len() + old(self)@.entities.flush().0.len() < u32::MAX,
        ensures
            final(self).wf(),
            final(self)@.entities.flushed(),
            final(self)@.components == old(self)@.components,
            final(self)@.bundles == old(self)@.bundles,
            final(self)@.sparse_sets == old(self)@.sparse_sets,
            final(self)@.change_tick == old(self)@.change_tick,
            final(self)@.archetypes.len() == old(self)@.archetypes.len(),
            final(self)@.tables.len() == old(self)@.tables.len(),
            final(self)@.archetypes[0].entities.len() == old(self)@.archetypes[0].entities.len() + old(self)@.entities.flush().0.len(),
            forall|a: int| 0 < a < old(self)@.archetypes.len() ==> #[trigger] final(self)@.archetypes[a] == old(self)@.archetypes[a],
            final(self)@.tables[0].entities.len() == old(self)@.tables[0].entities.len() + old(self)@.entities.flush().0.len(),
            forall|t: int| 0 < t < old(self)@.tables.len() ==> #[trigger] final(self)@.tables[t] == old(self)@.tables[t],
            final(self)@.archetype_component_count == old(self)@.archetype_component_count,
            same_graph(old(self)@.archetypes, final(self)@.archetypes),
            final(self)@.entities.len == old(self)@.entities.flush().1.len,
            final(self)@.entities.meta.len() == old(self)@.entities.flush().1.meta.len(),
            final(self)@.entities.pending == old(self)@.entities.flush().1.pending,
            old(self)@.entities.flushed() ==> final(self)@ == old(self)@,
    {
        let ghost v0 = self@;
        proof {
            if v0.entities.flushed() {
                let f = v0.entities.flush();
                assert(f.1.meta =~= v0.entities.meta);
                assert(f.1.pending =~= v0.entities.pending);
                assert(f.1 == v0.entities);
                assert(f.0.len() == 0);
            }
            lemma_flush_out(v0.entities);
            self.archetypes.lemma_wf();
            self.tables.lemma_wf();
        }
        let list = self.entities.flush();
        proof {
            let v = self@;
            assert(v.entities.meta.subrange(0, v0.entities.meta.len() as int) =~= v0.entities.meta);
            assert forall|x: Entity| #[trigger] v.entities.contains(x) <==> v0.entities.contains(x) by {
                if x.index < v0.entities.meta.len() {
                    assert(v.entities.meta[x.index as int] == v0.entities.meta[x.index as int]);
                }
            }
            assert forall|x: Entity| #[trigger] v0.entities.contains(x) implies v.loc(x) == v0.loc(x) by {
                assert(v.entities.meta[x.index as int] == v0.entities.meta[x.index as int]);
            }
            lemma_linked_frame(v0, v);
            assert(v0.registries_ok());
            assert(v.archetypes == v0.archetypes && v.tables == v0.tables && v.sparse_sets == v0.sparse_sets);
            assert(v.components == v0.components && v.bundles == v0.bundles);
            assert(v.registries_ok());
            assert(self.parts_wf());
            if v0.entities.flushed() {
                assert(v.entities == v0.entities);
                assert(v == v0);
            }
        }
        let mut i: usize = 0;
        while i < list.len()
            invariant
                self.wf(),
                i <= list.len(),
                list@ == v0.entities.flush().0,
                self@.components == v0.components,
                self@.bundles == v0.bundles,
                self@.sparse_sets == v0.sparse_sets,
                self@.change_tick == v0.change_tick,
                self@.archetypes.len() == v0.archetypes.len(),
                self@.tables.len() == v0.tables.len(),
                self@.archetypes.len() > 0,
                self@.archetypes[0].table_id.0 == 0,
                self@.archetypes[0].sparse_set_components.len() == 0,
                self@.archetypes[0].entities.len() == v0.archetypes[0].entities.len() + i,
                self@.tables[0].entities.len() == v0.tables[0].entities.len() + i,
                v0.archetypes[0].entities.len() + list.len() < u32::MAX,
                v0.tables[0].entities.len() + list.len() < u32::MAX,
                forall|a: int| 0 < a < v0.archetypes.len() ==> #[trigger] self@.archetypes[a] == v0.archetypes[a],
                forall|t: int| 0 < t < v0.tables.len() ==> #[trigger] self@.tables[t] == v0.tables[t],
                self@.archetype_component_count == v0.archetype_component_count,
                same_graph(v0.archetypes, self@.archetypes),
                v0.entities.flushed() ==> list.len() == 0 && self@ == v0,
                self@.entities.flushed(),
                self@.entities.len == v0.entities.flush().1.len,
                self@.entities.meta.len() == v0.entities.flush().1.meta.len(),
                self@.entities.pending == v0.entities.flush().1.pending,
                forall|k: int| i <= k < list.len() ==> {
                    &&& (#[trigger] list@[k]).index < self@.entities.meta.len()
                    &&& self@.entities.meta[list@[k].index as int].generation == list@[k].generation
                    &&& !self@.entities.meta[list@[k].index as int].location.is_valid()
                    &&& !self@.entities.pending.contains(list@[k].index)
                },
                forall|j: int, k: int| 0 <= j < list.len() && 0 <= k < list.len() && j != k ==> list@[j].index != list@[k].index,
            decreases list.len() - i,
        {
            let e = list[i];
            let ghost before = self@;
            proof {
                self.archetypes.lemma_wf();
                self.tables.lemma_wf();
            }
            self.place(e, ArchetypeId(0));
            proof {
                let v = self@;
                assert forall|c: usize| #[trigger] v.sparse_sets.contains_key(c) implies (v.sparse_sets[c].has(e)
                    <==> v.entities.contains(e) && v.archetypes[v.loc(e).archetype_id.0 as int].sparse_set_components.contains(ComponentId(c))) by {
                    assert(v.archetypes[0].sparse_set_components.len() == 0);
                }
                lemma_linked_from_except(v, e);
                assert forall|k: int| i + 1 <= k < list.len() implies {
                    &&& (#[trigger] list@[k]).index < v.entities.meta.len()
                    &&& v.entities.meta[list@[k].index as int].generation == list@[k].generation
                    &&& !v.entities.meta[list@[k].index as int].location.is_valid()
                    &&& !v.entities.pending.contains(list@[k].index)
                } by {
                    assert(list@[k].index != e.index);
                    assert(v.entities.meta[list@[k].index as int] == before.entities.meta[list@[k].index as int]);
                }
            }
            i = i + 1;
        }
    }

    /// The archetype registry.
    pub fn archetypes(&self) -> (r: &Archetypes)
        requires
            self.wf(),
        ensures
            r@ == self@.archetypes,
            r.wf(),
    {
        &self.archetypes
    }

    /// The table registry.
    pub fn tables(&self) -> (r: &Tables)
        requires
            self.wf(),
        ensures
            r@ == self@.tables,
            r.wf(),
    {
        &self.tables
    }

    /// The component registry.
    pub fn components(&self) -> (r: &Components)
        requires
            self.wf(),
        ensures
            r@ == self@.components,
            r.wf(),
    {
        &self.components
    }

    /// The world's invariants, as facts over its abstract state.
    pub proof fn lemma_wf(&self)
        requires
            self.wf(),
        ensures
            self@.registries_ok(),
            self@.linked(),
            self@.entities.wf(),
            crate::archetype::archetypes_wf(self@.archetypes),
            crate::table::tables_wf(self@.tables),
            forall|c: usize| #[trigger] self@.sparse_sets.contains_key(c) ==> self@.sparse_sets[c].wf(),
    {
        self.archetypes.lemma_wf();
        self.tables.lemma_wf();
        self.sparse_sets.lemma_wf();
    }

    /// The value of a component of an entity; `None` where the entity is
    /// dead or lacks the component.
    pub fn get_component(&self, entity: Entity, component_id: ComponentId) -> (r: Option<&Vec<u8>>)
        requires
            self.wf(),
        ensures
            r is Some <==> self@.has_component(entity, component_id),
            r matches Some(v) ==> v@ == self@.component_value(entity, component_id),
    {
        let loc = match self.entities.get(entity) {
            Some(l) => l,
            None => return None,
        };
        proof {
            assert(self@.entity_linked(entity));
            self.archetypes.lemma_wf();
            self.tables.lemma_wf();
            self.sparse_sets.lemma_wf();
        }
        let archetype = self.archetypes.at(loc.archetype_id);
        if !archetype.contains(component_id) {
            return None;
        }
        let ghost v = self@;
        let ghost a = loc.archetype_id.0 as int;
        proof {
            if v.archetypes[a].table_components.contains(component_id) {
                assert(v.components[component_id.0 as int].storage_type == StorageType::Table);
            } else {
                assert(v.archetypes[a].sparse_set_components.contains(component_id));
                assert(v.components[component_id.0 as int].storage_type == StorageType::SparseSet);
            }
        }
        match self.components.storage_type_of(component_id) {
            StorageType::Table => {
                let table = self.tables.get(loc.table_id).unwrap();
                proof {
                    assert(v.archetypes[a].table_components.contains(component_id)) by {
                        if !v.archetypes[a].table_components.contains(component_id) {
                            assert(v.archetypes[a].sparse_set_components.contains(component_id));
                        }
                    }
                    assert(v.tables[loc.table_id.0 as int].ids == v.archetypes[a].table_components);
                }
                let c = table.column_index(component_id).unwrap();
                Some(table.get_value(c, loc.table_row))
            },
            StorageType::SparseSet => {
                proof {
                    assert(v.archetypes[a].sparse_set_components.contains(component_id)) by {
                        if !v.archetypes[a].sparse_set_components.contains(component_id) {
                            assert(v.archetypes[a].table_components.contains(component_id));
                        }
                    }
                    assert(v.sparse_sets.contains_key(component_id.0));
                    assert(v.sparse_sets[component_id.0].has(entity));
                }
                let set = self.sparse_sets.get(component_id).unwrap();
                set.get(entity)
            },
        }
    }

    /// The ticks of a component of an entity; `None` where the entity is
    /// dead or lacks the component.
    pub fn get_component_ticks(&self, entity: Entity, component_id: ComponentId) -> (r: Option<ComponentTicks>)
        requires
            self.wf(),
        ensures
            r is Some <==> self@.has_component(entity, component_id),
            r matches Some(t) ==> (t.added, t.changed) == self@.component_ticks(entity, component_id),
    {
        let loc = match self.entities.get(entity) {
            Some(l) => l,
            None => return None,
        };
        proof {
            assert(self@.entity_linked(entity));
            self.archetypes.lemma_wf();
            self.tables.lemma_wf();
            self.sparse_sets.lemma_wf();
        }
        let archetype = self.archetypes.at(loc.archetype_id);
        if !archetype.contains(component_id) {
            return None;
        }
        let ghost v = self@;
        let ghost a = loc.archetype_id.0 as int;
        proof {
            if v.archetypes[a].table_components.contains(component_id) {
                assert(v.components[component_id.0 as int].storage_type == StorageType::Table);
            } else {
                assert(v.archetypes[a].sparse_set_components.contains(component_id));
                assert(v.components[component_id.0 as int].storage_type == StorageType::SparseSet);
            }
        }
        match self.components.storage_type_of(component_id) {
            StorageType::Table => {
                let table = self.tables.get(loc.table_id).unwrap();
                proof {
                    assert(v.archetypes[a].table_components.contains(component_id)) by {
                        if !v.archetypes[a].table_components.contains(component_id) {
                            assert(v.archetypes[a].sparse_set_components.contains(component_id));
                        }
                    }
                    assert(v.tables[loc.table_id.0 as int].ids == v.archetypes[a].table_components);
                }
                let c = table.column_index(component_id).unwrap();
                Some(table.get_ticks(c, loc.table_row))
            },
            StorageType::SparseSet => {
                proof {
                    assert(v.archetypes[a].sparse_set_components.contains(component_id)) by {
                        if !v.archetypes[a].sparse_set_components.contains(component_id) {
                            assert(v.archetypes[a].table_components.contains(component_id));
                        }
                    }
                    assert(v.sparse_sets.contains_key(component_id.0));
                    assert(v.sparse_sets[component_id.0].has(entity));
                }
                let set = self.sparse_sets.get(component_id).unwrap();
                set.get_ticks(entity)
            },
        }
    }

    /// Overwrites a component of an entity and marks it changed at the
    /// world's change tick; returns whether the entity had the component.
    #[verifier::spinoff_prover]
    pub fn set_component(&mut self, entity: Entity, component_id: ComponentId, value: Vec<u8>) -> (r: bool)
        requires
            old(self).wf(),
            component_id.0 < old(self)@.components.len() ==> value@.len() == old(self)@.components[component_id.0 as int].layout.size,
        ensures
            final(self).wf(),
            r == old(self)@.has_component(entity, component_id),
            !r ==> final(self)@ == old(self)@,
            r ==> final(self)@.has_component(entity, component_id)
                && final(self)@.component_value(entity, component_id) == value@
                && final(self)@.component_ticks(entity, component_id).1.tick == old(self)@.change_tick,
            final(self)@.entities == old(self)@.entities,
            final(self)@.archetypes == old(self)@.archetypes,
            final(self)@.components == old(self)@.components,
            final(self)@.change_tick == old(self)@.change_tick,
    {
        let loc = match self.entities.get(entity) {
            Some(l) => l,
            None => return false,
        };
        let ghost v0 = self@;
        proof {
            assert(v0.entity_linked(entity));
            self.archetypes.lemma_wf();
            self.tables.lemma_wf();
            self.sparse_sets.lemma_wf();
        }
        if !self.archetypes.at(loc.archetype_id).contains(component_id) {
            return false;
        }
        let ghost a = loc.archetype_id.0 as int;
        proof {
            if v0.archetypes[a].table_components.contains(component_id) {
                assert(v0.components[component_id.0 as int].storage_type == StorageType::Table);
            } else {
                assert(v0.archetypes[a].sparse_set_components.contains(component_id));
                assert(v0.components[component_id.0 as int].storage_type == StorageType::SparseSet);
            }
        }
        let tick = Tick::new(self.change_tick);
        match self.components.storage_type_of(component_id) {
            StorageType::Table => {
                proof {
                    assert(v0.archetypes[a].table_components.contains(component_id)) by {
                        if !v0.archetypes[a].table_components.contains(component_id) {
                            assert(v0.archetypes[a].sparse_set_components.contains(component_id));
                        }
                    }
                    assert(v0.tables[loc.table_id.0 as int].ids == v0.archetypes[a].table_components);
                }
                let c = self.tables.get(loc.table_id).unwrap().column_index(component_id).unwrap();
                let old_ticks = self.tables.get(loc.table_id).unwrap().get_ticks(c, loc.table_row);
                proof {
                    let t = v0.tables[loc.table_id.0 as int];
                    assert(t.ids[c as int] == component_id);
                    assert(t.columns[c as int].layout == v0.components[t.ids[c as int].0 as int].layout);
                }
                self.tables.set_value(loc.table_id, c, loc.table_row, value, ComponentTicks { added: old_ticks.added, changed: tick });
                proof {
                    let v = self@;
                    let t = loc.table_id.0 as int;
                    assert forall|k: int| 0 <= k < v0.tables[t].ids.len() implies (#[trigger] v.tables[t].columns[k]).layout
                        == v0.tables[t].columns[k].layout by {
                        if k != c {
                            assert(v.tables[t].columns[k] == v0.tables[t].columns[k]);
                        }
                    }
                    lemma_table_write_keeps(v0, v, t);
                    assert(v.linked()) by {
                        assert(v0.linked_except(entity));
                        assert(v.linked_except(entity));
                        assert(v.sparse_sets == v0.sparse_sets && v.entities == v0.entities && v.archetypes == v0.archetypes);
                        assert forall|c2: usize| #[trigger] v.sparse_sets.contains_key(c2) implies (v.sparse_sets[c2].has(entity)
                            <==> v.entities.contains(entity) && v.archetypes[v.loc(entity).archetype_id.0 as int].sparse_set_components.contains(ComponentId(c2))) by {
                            assert(v0.sparse_sets[c2].has(entity) <==> v0.entities.contains(entity) && v0.archetypes[v0.loc(entity).archetype_id.0 as int].sparse_set_components.contains(ComponentId(c2)));
                        }
                        lemma_linked_from_except(v, entity);
                    }
                    assert(v.tables[t].column_of(component_id) == c as int) by {
                        let cc = v.tables[t].column_of(component_id);
                        assert(v.tables[t].ids.contains(component_id));
                        assert(v.tables[t].wf()) by {
                            self.tables.lemma_wf();
                        }
                        if cc < c {
                            assert(v.tables[t].ids[cc].0 < v.tables[t].ids[c as int].0);
                        } else if cc > c {
                            assert(v.tables[t].ids[c as int].0 < v.tables[t].ids[cc].0);
                        }
                    }
                }
            },
            StorageType::SparseSet => {
                proof {
                    assert(v0.archetypes[a].sparse_set_components.contains(component_id)) by {
                        if !v0.archetypes[a].sparse_set_components.contains(component_id) {
                            assert(v0.archetypes[a].table_components.contains(component_id));
                        }
                    }
                    assert(v0.sparse_sets.contains_key(component_id.0));
                    assert(v0.sparse_sets[component_id.0].has(entity));
                    assert(v0.sparse_sets[component_id.0].column.layout == v0.components[component_id.0 as int].layout);
                    assert(v0.sparse_sets[component_id.0].wf());
                    assert(entity.index < u32::MAX);
                }
                self.sparse_sets.insert(component_id, entity, value, tick);
                proof {
                    let v = self@;
                    self.sparse_sets.lemma_wf();
                    assert(v0.linked_except(entity));
                    lemma_sparse_write_keeps(v0, v, component_id.0, entity);
                    assert forall|c2: usize| #[trigger] v.sparse_sets.contains_key(c2) implies (v.sparse_sets[c2].has(entity)
                        <==> v.entities.contains(entity) && v.archetypes[v.loc(entity).archetype_id.0 as int].sparse_set_components.contains(ComponentId(c2))) by {
                        if c2 != component_id.0 {
                            assert(v.sparse_sets[c2] == v0.sparse_sets[c2]);
                        }
                    }
                    lemma_linked_from_except(v, entity);
                }
            },
        }
        true
    }

    /// Registers a component type, or finds the one registered under the
    /// descriptor's type key. A new sparse-class component gets its column.
    #[verifier::spinoff_prover]
    pub fn init_component(&mut self, descriptor: ComponentDescriptor) -> (r: ComponentId)
        requires
            old(self).wf(),
            old(self)@.components.len() < u32::MAX,
        ensures
            final(self).wf(),
            r.0 < final(self)@.components.len(),
            final(self)@.entities == old(self)@.entities,
            final(self)@.archetypes == old(self)@.archetypes,
            final(self)@.tables == old(self)@.tables,
            final(self)@.bundles == old(self)@.bundles,
            final(self)@.change_tick == old(self)@.change_tick,
            final(self)@.archetype_component_count == old(self)@.archetype_component_count,
            forall|c: usize| #[trigger] old(self)@.sparse_sets.contains_key(c) ==> final(self)@.sparse_sets.contains_key(c)
                && final(self)@.sparse_sets[c] == old(self)@.sparse_sets[c],
            forall|c: usize| #[trigger] final(self)@.sparse_sets.contains_key(c) && !old(self)@.sparse_sets.contains_key(c)
                ==> final(self)@.sparse_sets[c].len() == 0,
            final(self)@.components.subrange(0, old(self)@.components.len() as int) == old(self)@.components,
            r.0 < old(self)@.components.len() ==> final(self)@.components == old(self)@.components
                && old(self)@.components[r.0 as int].type_id == descriptor.type_id && descriptor.type_id is Some,
            r.0 >= old(self)@.components.len() ==> r.0 == old(self)@.components.len()
                && final(self)@.components == old(self)@.components.push(crate::component::record_of(descriptor)),
            descriptor.type_id is None ==> r.0 == old(self)@.components.len(),
            final(self)@.sparse_sets.contains_key(r.0)
                <==> final(self)@.components[r.0 as int].storage_type == StorageType::SparseSet,
            r.0 >= old(self)@.components.len() && descriptor.storage_type == StorageType::SparseSet
                ==> final(self)@.sparse_sets.contains_key(r.0) && final(self)@.sparse_sets[r.0].len() == 0,
    {
        let ghost v0 = self@;
        proof {
            self.tables.lemma_wf();
        }
        let (id, is_new) = self.components.init_component(descriptor);
        let ghost added_sparse = is_new && self@.components[id.0 as int].storage_type == StorageType::SparseSet;
        if is_new {
            let info = self.components.get_info(id).unwrap();
            if info.storage_type() == StorageType::SparseSet {
                proof {
                    self.sparse_sets.lemma_wf();
                    assert(!v0.sparse_sets.contains_key(id.0));
                    lemma_usize_range_len(v0.components.len());
                    assert(v0.sparse_sets.dom().subset_of(Set::new(|c: usize| c < v0.components.len())));
                    vstd::set_lib::lemma_len_subset(v0.sparse_sets.dom(), Set::new(|c: usize| c < v0.components.len()));
                }
                self.sparse_sets.get_or_insert(info);
            }
        }
        proof {
            if added_sparse {
                assert(self@.sparse_sets.dom() == v0.sparse_sets.dom().insert(id.0));
                assert(self@.sparse_sets[id.0].len() == 0);
            } else {
                assert(self@.sparse_sets == v0.sparse_sets);
            }
        }
        proof {
            let v = self@;
            assert(v.components.subrange(0, v0.components.len() as int) =~= v0.components);
            assert forall|a: int, c: ComponentId| 0 <= a < v.archetypes.len() && #[trigger] v.archetypes[a].table_components.contains(c)
                implies c.0 < v.components.len() && v.components[c.0 as int].storage_type == StorageType::Table by {
                assert(v.components[c.0 as int] == v0.components[c.0 as int]);
            }
            assert forall|a: int, c: ComponentId| 0 <= a < v.archetypes.len() && #[trigger] v.archetypes[a].sparse_set_components.contains(c)
                implies c.0 < v.components.len() && v.components[c.0 as int].storage_type == StorageType::SparseSet by {
                assert(v.components[c.0 as int] == v0.components[c.0 as int]);
            }
            lemma_edges_components_grow(v.archetypes, v0.components, v.components, v.bundles);
            assert forall|c: usize| #[trigger] v.sparse_sets.contains_key(c) <==> c < v.components.len()
                && v.components[c as int].storage_type == StorageType::SparseSet by {
                assert(v0.sparse_sets.contains_key(c) <==> c < v0.components.len()
                    && v0.components[c as int].storage_type == StorageType::SparseSet);
                if c < v0.components.len() {
                    assert(v.components[c as int] == v0.components[c as int]);
                }
            }
            assert forall|c: usize| #[trigger] v.sparse_sets.contains_key(c) implies v.sparse_sets[c].column.layout
                == v.components[c as int].layout by {
                if c < v0.components.len() {
                    assert(v.components[c as int] == v0.components[c as int]);
                }
            }
            assert forall|t: int, k: int| 0 <= t < v.tables.len() && 0 <= k < v.tables[t].ids.len()
                implies (#[trigger] v.tables[t].ids[k]).0 < v.components.len()
                && v.tables[t].columns[k].layout == v.components[v.tables[t].ids[k].0 as int].layout by {
                assert(v.components[v.tables[t].ids[k].0 as int] == v0.components[v.tables[t].ids[k].0 as int]);
            }
            assert forall|c: usize, e: Entity| #[trigger] v.sparse_sets.contains_key(c) implies (#[trigger] v.sparse_sets[c].has(e)
                <==> v.entities.contains(e) && v.archetypes[v.loc(e).archetype_id.0 as int].sparse_set_components.contains(ComponentId(c))) by {
                if !v0.sparse_sets.contains_key(c) {
                    assert(added_sparse);
                    assert(v.sparse_sets.dom().contains(c));
                    assert(c == id.0);
                    assert(!v.sparse_sets[c].has(e));
                    if v.entities.contains(e) {
                        assert(v0.entities.contains(e));
                        assert(v0.entity_linked(e));
                        let a = v.loc(e).archetype_id.0 as int;
                        assert(0 <= a < v0.archetypes.len());
                        if v0.archetypes[a].sparse_set_components.contains(ComponentId(c)) {
                            assert(c < v0.components.len());
                        }
                    }
                } else {
                    assert(v.sparse_sets[c] == v0.sparse_sets[c]);
                }
            }
            assert(self.entities.wf());
            assert(self.components.wf());
            assert(self.tables.wf());
            assert(self.sparse_sets.wf());
            assert(self.archetypes.wf());
            assert(self.bundles.wf());
            assert(classes_ok(v.archetypes, v.components));
            assert(edges_ok(v.archetypes, v.components, v.bundles));
            assert(v.registries_ok());
            assert(v.entities == v0.entities);
            assert(v.archetypes == v0.archetypes);
            assert(v.tables == v0.tables);
            assert(forall|e: Entity| #[trigger] v.entities.contains(e) ==> v.entity_linked(e)) by {
                assert forall|e: Entity| #[trigger] v.entities.contains(e) implies v.entity_linked(e) by {
                    assert(v0.entities.contains(e));
                }
            }
            assert(v.linked());
        }
        id
    }
}

/// Every live entity sits where its location says: in its archetype at its
/// archetype row, and in the archetype's table at its table row, whose
/// width is the archetype's table width.
pub proof fn lemma_live_entities_located(world: &World, e: Entity)
    requires
        world.wf(),
        world@.entities.contains(e),
    ensures
        world@.entity_linked(e),
        world@.tables[world@.loc(e).table_id.0 as int].ids == world@.archetypes[world@.loc(e).archetype_id.0 as int].table_components,
        world@.tables[world@.loc(e).table_id.0 as int].columns.len() == world@.archetypes[world@.loc(e).archetype_id.0 as int].table_components.len(),
{
    world.lemma_wf();
    let l = world@.loc(e);
    assert(world@.entity_linked(e));
    assert(world@.tables[l.table_id.0 as int].wf());
}

/// No two archetypes have the same table and sparse-set components.
pub proof fn lemma_archetype_keys_distinct(world: &World, a: int, b: int)
    requires
        world.wf(),
        0 <= a < world@.archetypes.len(),
        0 <= b < world@.archetypes.len(),
        a != b,
    ensures
        world@.archetypes[a].table_components != world@.archetypes[b].table_components
            || world@.archetypes[a].sparse_set_components != world@.archetypes[b].sparse_set_components,
{
    world.lemma_wf();
}

/// Every column of every table holds one value, one insertion tick and one
/// change tick per entity of the table.
pub proof fn lemma_columns_match_entities(world: &World, t: int, c: int)
    requires
        world.wf(),
        0 <= t < world@.tables.len(),
        0 <= c < world@.tables[t].columns.len(),
    ensures
        world@.tables[t].columns[c].values.len() == world@.tables[t].entities.len(),
        world@.tables[t].columns[c].added.len() == world@.tables[t].entities.len(),
        world@.tables[t].columns[c].changed.len() == world@.tables[t].entities.len(),
{
    world.lemma_wf();
    assert(world@.tables[t].wf());
}

/// In every sparse-set column, the sparse slot of each stored entity's
/// index points back at that entity's dense row.
pub proof fn lemma_sparse_rows_point_back(world: &World, c: usize, i: int)
    requires
        world.wf(),
        world@.sparse_sets.contains_key(c),
        0 <= i < world@.sparse_sets[c].entities.len(),
    ensures
        world@.sparse_sets[c].row_of(world@.sparse_sets[c].entities[i].index) == Some(TableRow(i as u32)),
{
    world.lemma_wf();
    assert(world@.sparse_sets[c].wf());
}

/// A change of the entity allocator that keeps who is alive and where
/// keeps the world linked.
proof fn lemma_linked_frame(v0: WorldView, v: WorldView)
    requires
        v0.linked(),
        v.archetypes == v0.archetypes,
        v.tables == v0.tables,
        v.sparse_sets == v0.sparse_sets,
        forall|x: Entity| #[trigger] v.entities.contains(x) <==> v0.entities.contains(x),
        forall|x: Entity| #[trigger] v0.entities.contains(x) ==> v.loc(x) == v0.loc(x),
    ensures
        v.linked(),
{
    assert forall|x: Entity| #[trigger] v.entities.contains(x) implies v.entity_linked(x) by {
        assert(v0.entities.contains(x));
        assert(v0.entity_linked(x));
    }
    assert forall|a: int, r: int| 0 <= a < v.archetypes.len() && 0 <= r < v.archetypes[a].entities.len()
        implies v.entities.contains(#[trigger] v.archetypes[a].entities[r].entity)
        && v.loc(v.archetypes[a].entities[r].entity) == (EntityLocation {
            archetype_id: ArchetypeId(a as u32),
            archetype_row: crate::archetype::ArchetypeRow(r as u32),
            table_id: v.archetypes[a].table_id,
            table_row: v.archetypes[a].entities[r].table_row,
        }) by {
        assert(v0.entities.contains(v0.archetypes[a].entities[r].entity));
    }
    assert forall|t: int, r: int| 0 <= t < v.tables.len() && 0 <= r < v.tables[t].entities.len()
        implies v.entities.contains(#[trigger] v.tables[t].entities[r])
        && v.loc(v.tables[t].entities[r]).table_id.0 == t
        && v.loc(v.tables[t].entities[r]).table_row.0 == r by {
        assert(v0.entities.contains(v0.tables[t].entities[r]));
    }
    assert forall|c: usize, e: Entity| #[trigger] v.sparse_sets.contains_key(c) implies (#[trigger] v.sparse_sets[c].has(e)
        <==> v.entities.contains(e) && v.archetypes[v.loc(e).archetype_id.0 as int].sparse_set_components.contains(ComponentId(c))) by {
        assert(v0.sparse_sets[c].has(e) <==> v0.entities.contains(e) && v0.archetypes[v0.loc(e).archetype_id.0 as int].sparse_set_components.contains(ComponentId(c)));
    }
}

/// New empty archetypes and tables, and new cached transitions, keep the
/// world linked.
proof fn lemma_linked_grow(v0: WorldView, v: WorldView)
    requires
        v0.linked(),
        v.entities == v0.entities,
        v.sparse_sets == v0.sparse_sets,
        extends(v0.archetypes, v.archetypes),
        forall|x: int| v0.archetypes.len() <= x < v.archetypes.len() ==> (#[trigger] v.archetypes[x]).entities.len() == 0,
        v0.tables.len() <= v.tables.len(),
        v.tables.subrange(0, v0.tables.len() as int) == v0.tables,
        forall|t: int| v0.tables.len() <= t < v.tables.len() ==> (#[trigger] v.tables[t]).entities.len() == 0,
    ensures
        v.linked(),
{
    assert forall|t: int| 0 <= t < v0.tables.len() implies #[trigger] v.tables[t] == v0.tables[t] by {
        assert(v.tables.subrange(0, v0.tables.len() as int)[t] == v.tables[t]);
    }
    assert forall|x: Entity| #[trigger] v.entities.contains(x) implies v.entity_linked(x) by {
        assert(v0.entity_linked(x));
        let l = v0.loc(x);
        assert(v.archetypes[l.archetype_id.0 as int] == (ArchetypeView { edges: v.archetypes[l.archetype_id.0 as int].edges, ..v0.archetypes[l.archetype_id.0 as int] }));
        assert(v.tables[l.table_id.0 as int] == v0.tables[l.table_id.0 as int]);
    }
    assert forall|a: int, r: int| 0 <= a < v.archetypes.len() && 0 <= r < v.archetypes[a].entities.len()
        implies v.entities.contains(#[trigger] v.archetypes[a].entities[r].entity)
        && v.loc(v.archetypes[a].entities[r].entity) == (EntityLocation {
            archetype_id: ArchetypeId(a as u32),
            archetype_row: crate::archetype::ArchetypeRow(r as u32),
            table_id: v.archetypes[a].table_id,
            table_row: v.archetypes[a].entities[r].table_row,
        }) by {
        assert(a < v0.archetypes.len());
        assert(v.archetypes[a] == (ArchetypeView { edges: v.archetypes[a].edges, ..v0.archetypes[a] }));
        assert(v0.entities.contains(v0.archetypes[a].entities[r].entity));
    }
    assert forall|t: int, r: int| 0 <= t < v.tables.len() && 0 <= r < v.tables[t].entities.len()
        implies v.entities.contains(#[trigger] v.tables[t].entities[r])
        && v.loc(v.tables[t].entities[r]).table_id.0 == t
        && v.loc(v.tables[t].entities[r]).table_row.0 == r by {
        assert(t < v0.tables.len());
        assert(v0.entities.contains(v0.tables[t].entities[r]));
    }
    assert forall|c: usize, e: Entity| #[trigger] v.sparse_sets.contains_key(c) implies (#[trigger] v.sparse_sets[c].has(e)
        <==> v.entities.contains(e) && v.archetypes[v.loc(e).archetype_id.0 as int].sparse_set_components.contains(ComponentId(c))) by {
        assert(v0.sparse_sets[c].has(e) <==> v0.entities.contains(e) && v0.archetypes[v0.loc(e).archetype_id.0 as int].sparse_set_components.contains(ComponentId(c)));
        if v.entities.contains(e) {
            assert(v0.entity_linked(e));
            let a = v0.loc(e).archetype_id.0 as int;
            assert(v.archetypes[a] == (ArchetypeView { edges: v.archetypes[a].edges, ..v0.archetypes[a] }));
        }
    }
}

/// Writing the values of one table keeps the parts and the linkage.
proof fn lemma_table_write_keeps(v0: WorldView, v: WorldView, t: int)
    requires
        v0.registries_ok(),
        0 <= t < v0.tables.len(),
        v.entities == v0.entities,
        v.archetypes == v0.archetypes,
        v.components == v0.components,
        v.bundles == v0.bundles,
        v.sparse_sets == v0.sparse_sets,
        v.tables.len() == v0.tables.len(),
        forall|u: int| 0 <= u < v0.tables.len() && u != t ==> #[trigger] v.tables[u] == v0.tables[u],
        v.tables[t].entities == v0.tables[t].entities,
        v.tables[t].ids == v0.tables[t].ids,
        v.tables[t].columns.len() == v0.tables[t].columns.len(),
        forall|k: int| 0 <= k < v0.tables[t].ids.len() ==> (#[trigger] v.tables[t].columns[k]).layout == v0.tables[t].columns[k].layout,
    ensures
        v.registries_ok(),
        forall|x: Entity| v0.linked_except(x) ==> v.linked_except(x),
{
    assert forall|u: int| 0 <= u < v0.tables.len() implies (#[trigger] v.tables[u]).ids == v0.tables[u].ids by {}
    lemma_same_graph(v0.archetypes, v.archetypes, v.components, v.bundles, v0.tables, v.tables);
    assert forall|u: int, k: int| 0 <= u < v.tables.len() && 0 <= k < v.tables[u].ids.len()
        implies (#[trigger] v.tables[u].ids[k]).0 < v.components.len()
        && v.tables[u].columns[k].layout == v.components[v.tables[u].ids[k].0 as int].layout by {
        assert(v0.tables[u].ids[k] == v.tables[u].ids[k]);
        assert((v0.tables[u].ids[k]).0 < v0.components.len()
            && v0.tables[u].columns[k].layout == v0.components[v0.tables[u].ids[k].0 as int].layout);
        if u != t {
            assert(v.tables[u] == v0.tables[u]);
        } else {
            assert(v.tables[t].columns[k].layout == v0.tables[t].columns[k].layout);
        }
    }
    assert forall|x: Entity| v0.linked_except(x) implies v.linked_except(x) by {
        assert forall|e: Entity| #[trigger] v.entities.contains(e) implies v.entity_linked(e) by {
            assert(v0.entity_linked(e));
            let u = v0.loc(e).table_id.0 as int;
            if u != t {
                assert(v.tables[u] == v0.tables[u]);
            }
        }
        assert forall|u: int, r: int| 0 <= u < v.tables.len() && 0 <= r < v.tables[u].entities.len()
            implies v.entities.contains(#[trigger] v.tables[u].entities[r])
            && v.loc(v.tables[u].entities[r]).table_id.0 == u
            && v.loc(v.tables[u].entities[r]).table_row.0 == r by {
            if u != t {
                assert(v.tables[u] == v0.tables[u]);
            }
            assert(v0.entities.contains(v0.tables[u].entities[r]));
        }
    }
}

/// Writing one entity's value into a sparse set keeps the parts and the
/// linkage, the membership of that entity aside.
proof fn lemma_sparse_write_keeps(v0: WorldView, v: WorldView, c: usize, x: Entity)
    requires
        v0.registries_ok(),
        v0.linked_except(x),
        v0.entities.contains(x),
        v0.sparse_sets.contains_key(c),
        v.entities == v0.entities,
        v.archetypes == v0.archetypes,
        v.components == v0.components,
        v.bundles == v0.bundles,
        v.tables == v0.tables,
        v.sparse_sets.dom() == v0.sparse_sets.dom(),
        forall|i: usize| #[trigger] v.sparse_sets.contains_key(i) && i != c ==> v.sparse_sets[i] == v0.sparse_sets[i],
        v.sparse_sets[c].has(x),
        v.sparse_sets[c].wf(),
        v.sparse_sets[c].column.layout == v0.sparse_sets[c].column.layout,
        forall|e: Entity| e.index != x.index ==> (v0.sparse_sets[c].has(e) <==> v.sparse_sets[c].has(e)),
    ensures
        v.registries_ok(),
        v.linked_except(x),
{
    assert forall|i: usize| #[trigger] v.sparse_sets.contains_key(i) implies v.sparse_sets[i].column.layout
        == v.components[i as int].layout by {
        if i != c {
            assert(v.sparse_sets[i] == v0.sparse_sets[i]);
        }
    }
    assert(v.sparse_sets.dom().contains(c));
    assert forall|i: usize| #[trigger] v.sparse_sets.contains_key(i) <==> i < v.components.len()
        && v.components[i as int].storage_type == StorageType::SparseSet by {
        assert(v.sparse_sets.dom().contains(i) == v0.sparse_sets.dom().contains(i));
    }
    assert forall|i: usize, e: Entity| #[trigger] v.sparse_sets.contains_key(i) && e != x implies (#[trigger] v.sparse_sets[i].has(e)
        <==> v.entities.contains(e) && v.archetypes[v.loc(e).archetype_id.0 as int].sparse_set_components.contains(ComponentId(i))) by {
        assert(v0.sparse_sets.contains_key(i));
        assert(v0.sparse_sets[i].has(e) <==> v0.entities.contains(e) && v0.archetypes[v0.loc(e).archetype_id.0 as int].sparse_set_components.contains(ComponentId(i)));
        if i == c && e.index == x.index {
            assert(!v.entities.contains(e));
            let s = v.sparse_sets[c];
            if s.has(e) {
                assert(s.row_of(e.index) == s.row_of(x.index));
            }
        }
    }
}

/// Removing the dead entity's row from its archetype, and moving the last
/// member into that row, keeps the relaxed linkage; then no archetype row
/// holds the dead entity.
#[verifier::spinoff_prover]
proof fn lemma_despawn_archetype_step(v0: WorldView, v: WorldView, x: Entity, a: int, row: int)
    requires
        v0.linked_except_rows(x),
        0 <= a < v0.archetypes.len(),
        0 <= row < v0.archetypes[a].entities.len(),
        v0.archetypes.len() < u32::MAX,
        v0.archetypes[a].entities[row].entity == x,
        forall|b: int, r: int| 0 <= b < v0.archetypes.len() && 0 <= r < v0.archetypes[b].entities.len()
            && #[trigger] v0.archetypes[b].entities[r].entity == x ==> b == a && r == row,
        v.tables == v0.tables,
        v.sparse_sets == v0.sparse_sets,
        v.archetypes == v0.archetypes.update(a, ArchetypeView { entities: swap_remove_seq(v0.archetypes[a].entities, row), ..v0.archetypes[a] }),
        v.entities.pending == v0.entities.pending,
        v.entities.free_cursor == v0.entities.free_cursor,
        v.entities.len == v0.entities.len,
        v0.archetypes[a].entities.len() <= u32::MAX,
        row < v0.archetypes[a].entities.len() - 1 ==> {
            let m = v0.archetypes[a].entities.last();
            v.entities.meta == v0.entities.meta.update(m.entity.index as int, EntityMeta {
                generation: v0.entities.meta[m.entity.index as int].generation,
                location: EntityLocation { archetype_row: ArchetypeRow(row as u32), ..v0.loc(m.entity) },
            })
        },
        row == v0.archetypes[a].entities.len() - 1 ==> v.entities.meta == v0.entities.meta,
    ensures
        v.linked_except_rows(x),
        forall|b: int, r: int| 0 <= b < v.archetypes.len() && 0 <= r < v.archetypes[b].entities.len() ==> #[trigger] v.archetypes[b].entities[r].entity != x,
{
    let last = v0.archetypes[a].entities.len() - 1;
    let ents0 = v0.archetypes[a].entities;
    let ents = v.archetypes[a].entities;
    if row < last {
        let m = ents0[last];
        assert(m.entity != x);
        assert(v0.entities.contains(m.entity));
        let lm = v0.loc(m.entity);
        assert(v0.archetypes[a].entities[last].entity == m.entity);
        assert(lm.archetype_id.0 == a && lm.archetype_row.0 == last);
        assert(v0.entities.meta[m.entity.index as int].location.is_valid());
        assert forall|y: Entity| #[trigger] v.entities.contains(y) <==> v0.entities.contains(y) by {
            if y.index == m.entity.index && y.index < v0.entities.meta.len() {
                assert(v.entities.meta[y.index as int].generation == v0.entities.meta[y.index as int].generation);
            } else if y.index < v0.entities.meta.len() {
                assert(v.entities.meta[y.index as int] == v0.entities.meta[y.index as int]);
            }
        }
        assert forall|y: Entity| #[trigger] v0.entities.contains(y) && y != m.entity implies v.loc(y) == v0.loc(y) by {
            if y.index == m.entity.index {
                assert(v0.entities.meta[y.index as int].generation == y.generation);
                assert(v0.entities.meta[y.index as int].generation == m.entity.generation);
            }
        }
        assert(v.loc(m.entity) == EntityLocation { archetype_row: ArchetypeRow(row as u32), ..lm });
        assert forall|y: Entity| #[trigger] v.entities.contains(y) implies v.entity_linked(y) by {
            assert(v0.entity_linked(y));
            let ly = v0.loc(y);
            if y == m.entity {
                assert(ents[row] == m);
            } else if ly.archetype_id.0 == a {
                let ry = ly.archetype_row.0 as int;
                assert(ry != row);
                assert(ry != last);
                assert(ents[ry] == ents0[ry]);
            }
        }
        assert forall|b: int, r: int| 0 <= b < v.archetypes.len() && 0 <= r < v.archetypes[b].entities.len()
            && v.archetypes[b].entities[r].entity != x
            implies v.entities.contains(#[trigger] v.archetypes[b].entities[r].entity)
            && v.loc(v.archetypes[b].entities[r].entity) == (EntityLocation {
                archetype_id: ArchetypeId(b as u32),
                archetype_row: ArchetypeRow(r as u32),
                table_id: v.archetypes[b].table_id,
                table_row: v.archetypes[b].entities[r].table_row,
            }) by {
            if b == a {
                if r == row {
                    assert(ents[r] == m);
                } else {
                    assert(ents[r] == ents0[r]);
                    assert(v0.entities.contains(ents0[r].entity));
                    assert(ents0[r].entity != m.entity);
                }
            } else {
                assert(v.archetypes[b] == v0.archetypes[b]);
                assert(v0.entities.contains(v0.archetypes[b].entities[r].entity));
                assert(v0.archetypes[b].entities[r].entity != m.entity);
            }
        }
        assert forall|t: int, r: int| 0 <= t < v.tables.len() && 0 <= r < v.tables[t].entities.len()
            && v.tables[t].entities[r] != x
            implies v.entities.contains(#[trigger] v.tables[t].entities[r])
            && v.loc(v.tables[t].entities[r]).table_id.0 == t
            && v.loc(v.tables[t].entities[r]).table_row.0 == r by {
            assert(v0.entities.contains(v0.tables[t].entities[r]));
        }
        assert forall|c: usize, y: Entity| #[trigger] v.sparse_sets.contains_key(c) && y != x implies (#[trigger] v.sparse_sets[c].has(y)
            <==> v.entities.contains(y) && v.archetypes[v.loc(y).archetype_id.0 as int].sparse_set_components.contains(ComponentId(c))) by {
            assert(v0.sparse_sets[c].has(y) <==> v0.entities.contains(y) && v0.archetypes[v0.loc(y).archetype_id.0 as int].sparse_set_components.contains(ComponentId(c)));
            if v0.entities.contains(y) {
                assert(v0.entity_linked(y));
                assert(v.loc(y).archetype_id == v0.loc(y).archetype_id);
            }
        }
        assert forall|b: int, r: int| 0 <= b < v.archetypes.len() && 0 <= r < v.archetypes[b].entities.len() implies #[trigger] v.archetypes[b].entities[r].entity != x by {
            if b == a {
                if r == row {
                    assert(ents[r] == m);
                } else {
                    assert(ents[r] == ents0[r]);
                    assert(r < last);
                    if ents0[r].entity == x {
                        assert(v0.archetypes[a].entities[r].entity == x);
                    }
                }
            } else {
                assert(v.archetypes[b] == v0.archetypes[b]);
                if v0.archetypes[b].entities[r].entity == x {
                    assert(b == a);
                }
            }
        }
    } else {
        assert(v.entities == v0.entities);
        assert forall|y: Entity| #[trigger] v.entities.contains(y) implies v.entity_linked(y) by {
            assert(v0.entity_linked(y));
            let ly = v0.loc(y);
            if ly.archetype_id.0 == a {
                let ry = ly.archetype_row.0 as int;
                assert(ry != row);
                assert(ents[ry] == ents0[ry]);
            }
        }
        assert forall|b: int, r: int| 0 <= b < v.archetypes.len() && 0 <= r < v.archetypes[b].entities.len()
            && v.archetypes[b].entities[r].entity != x
            implies v.entities.contains(#[trigger] v.archetypes[b].entities[r].entity)
            && v.loc(v.archetypes[b].entities[r].entity) == (EntityLocation {
                archetype_id: ArchetypeId(b as u32),
                archetype_row: ArchetypeRow(r as u32),
                table_id: v.archetypes[b].table_id,
                table_row: v.archetypes[b].entities[r].table_row,
            }) by {
            if b == a {
                assert(ents[r] == ents0[r]);
            } else {
                assert(v.archetypes[b] == v0.archetypes[b]);
            }
            assert(v0.entities.contains(v0.archetypes[b].entities[r].entity));
        }
        assert forall|t: int, r: int| 0 <= t < v.tables.len() && 0 <= r < v.tables[t].entities.len()
            && v.tables[t].entities[r] != x
            implies v.entities.contains(#[trigger] v.tables[t].entities[r])
            && v.loc(v.tables[t].entities[r]).table_id.0 == t
            && v.loc(v.tables[t].entities[r]).table_row.0 == r by {
            assert(v0.entities.contains(v0.tables[t].entities[r]));
        }
        assert forall|c: usize, y: Entity| #[trigger] v.sparse_sets.contains_key(c) && y != x implies (#[trigger] v.sparse_sets[c].has(y)
            <==> v.entities.contains(y) && v.archetypes[v.loc(y).archetype_id.0 as int].sparse_set_components.contains(ComponentId(c))) by {
            assert(v0.sparse_sets[c].has(y) <==> v0.entities.contains(y) && v0.archetypes[v0.loc(y).archetype_id.0 as int].sparse_set_components.contains(ComponentId(c)));
            if v0.entities.contains(y) {
                assert(v0.entity_linked(y));
            }
        }
        assert forall|b: int, r: int| 0 <= b < v.archetypes.len() && 0 <= r < v.archetypes[b].entities.len() implies #[trigger] v.archetypes[b].entities[r].entity != x by {
            if b == a {
                assert(ents[r] == ents0[r]);
            } else {
                assert(v.archetypes[b] == v0.archetypes[b]);
            }
        }
    }
}

/// Removing the dead entity's row from its table, and moving the last row
/// into its place, keeps the relaxed linkage; then no row holds the dead
/// entity.
#[verifier::spinoff_prover]
proof fn lemma_despawn_table_step(v0: WorldView, v: WorldView, x: Entity, t: int, row: int)
    requires
        v0.linked_except_rows(x),
        0 <= t < v0.tables.len(),
        0 <= row < v0.tables[t].entities.len(),
        v0.tables[t].entities.len() <= u32::MAX,
        v0.archetypes.len() < u32::MAX,
        forall|a: int| 0 <= a < v0.archetypes.len() ==> (#[trigger] v0.archetypes[a]).entities.len() <= u32::MAX,
        v0.tables[t].entities[row] == x,
        forall|u: int, r: int| 0 <= u < v0.tables.len() && 0 <= r < v0.tables[u].entities.len()
            && #[trigger] v0.tables[u].entities[r] == x ==> u == t && r == row,
        forall|b: int, r: int| 0 <= b < v0.archetypes.len() && 0 <= r < v0.archetypes[b].entities.len() ==> #[trigger] v0.archetypes[b].entities[r].entity != x,
        v.sparse_sets == v0.sparse_sets,
        v.tables.len() == v0.tables.len(),
        forall|u: int| 0 <= u < v0.tables.len() && u != t ==> #[trigger] v.tables[u] == v0.tables[u],
        v.tables[t].entities == swap_remove_seq(v0.tables[t].entities, row),
        v.entities.pending == v0.entities.pending,
        v.entities.free_cursor == v0.entities.free_cursor,
        v.entities.len == v0.entities.len,
        row < v0.tables[t].entities.len() - 1 ==> {
            let y = v0.tables[t].entities.last();
            let ly = v0.loc(y);
            &&& v.entities.meta == v0.entities.meta.update(y.index as int, EntityMeta {
                generation: v0.entities.meta[y.index as int].generation,
                location: EntityLocation { table_row: TableRow(row as u32), ..ly },
            })
            &&& v.archetypes == v0.archetypes.update(ly.archetype_id.0 as int, ArchetypeView {
                entities: v0.archetypes[ly.archetype_id.0 as int].entities.update(
                    ly.archetype_row.0 as int,
                    crate::archetype::ArchetypeEntity { entity: y, table_row: TableRow(row as u32) },
                ),
                ..v0.archetypes[ly.archetype_id.0 as int]
            })
        },
        row == v0.tables[t].entities.len() - 1 ==> v.entities.meta == v0.entities.meta && v.archetypes == v0.archetypes,
    ensures
        v.linked_except_rows(x),
        forall|b: int, r: int| 0 <= b < v.archetypes.len() && 0 <= r < v.archetypes[b].entities.len() ==> #[trigger] v.archetypes[b].entities[r].entity != x,
        forall|u: int, r: int| 0 <= u < v.tables.len() && 0 <= r < v.tables[u].entities.len() ==> #[trigger] v.tables[u].entities[r] != x,
{
    let last = v0.tables[t].entities.len() - 1;
    let rows0 = v0.tables[t].entities;
    let rows = v.tables[t].entities;
    if row < last {
        let y = rows0[last];
        assert(y != x);
        assert(v0.entities.contains(y));
        let ly = v0.loc(y);
        assert(ly.table_id.0 == t && ly.table_row.0 == last);
        assert(v0.entity_linked(y));
        let ay = ly.archetype_id.0 as int;
        let ry = ly.archetype_row.0 as int;
        assert(v0.entities.meta[y.index as int].location.is_valid());
        assert forall|z: Entity| #[trigger] v.entities.contains(z) <==> v0.entities.contains(z) by {
            if z.index == y.index && z.index < v0.entities.meta.len() {
                assert(v.entities.meta[z.index as int].generation == v0.entities.meta[z.index as int].generation);
            } else if z.index < v0.entities.meta.len() {
                assert(v.entities.meta[z.index as int] == v0.entities.meta[z.index as int]);
            }
        }
        assert forall|z: Entity| #[trigger] v0.entities.contains(z) && z != y implies v.loc(z) == v0.loc(z) by {
            if z.index == y.index {
                assert(v0.entities.meta[z.index as int].generation == z.generation);
            }
        }
        assert(v.loc(y) == EntityLocation { table_row: TableRow(row as u32), ..ly });
        assert forall|z: Entity| #[trigger] v.entities.contains(z) implies v.entity_linked(z) by {
            assert(v0.entity_linked(z));
            let lz = v0.loc(z);
            if z == y {
                assert(rows[row] == y);
            } else {
                if lz.table_id.0 == t {
                    assert(lz.table_row.0 != row);
                    assert(lz.table_row.0 != last);
                    assert(rows[lz.table_row.0 as int] == rows0[lz.table_row.0 as int]);
                }
                if lz.archetype_id.0 == ay {
                    assert(lz.archetype_row.0 != ry);
                }
            }
        }
        assert forall|b: int, r: int| 0 <= b < v.archetypes.len() && 0 <= r < v.archetypes[b].entities.len()
            && v.archetypes[b].entities[r].entity != x
            implies v.entities.contains(#[trigger] v.archetypes[b].entities[r].entity)
            && v.loc(v.archetypes[b].entities[r].entity) == (EntityLocation {
                archetype_id: ArchetypeId(b as u32),
                archetype_row: ArchetypeRow(r as u32),
                table_id: v.archetypes[b].table_id,
                table_row: v.archetypes[b].entities[r].table_row,
            }) by {
            assert(v0.entities.contains(v0.archetypes[b].entities[r].entity));
            if b == ay && r == ry {
            } else {
                assert(v.archetypes[b].entities[r] == v0.archetypes[b].entities[r]);
                assert(v0.archetypes[b].entities[r].entity != y);
            }
        }
        assert forall|u: int, r: int| 0 <= u < v.tables.len() && 0 <= r < v.tables[u].entities.len()
            && v.tables[u].entities[r] != x
            implies v.entities.contains(#[trigger] v.tables[u].entities[r])
            && v.loc(v.tables[u].entities[r]).table_id.0 == u
            && v.loc(v.tables[u].entities[r]).table_row.0 == r by {
            if u == t {
                if r == row {
                    assert(rows[r] == y);
                } else {
                    assert(rows[r] == rows0[r]);
                    assert(v0.entities.contains(rows0[r]));
                    assert(rows0[r] != y);
                }
            } else {
                assert(v0.entities.contains(v0.tables[u].entities[r]));
                assert(v0.tables[u].entities[r] != y);
            }
        }
        assert forall|c: usize, z: Entity| #[trigger] v.sparse_sets.contains_key(c) && z != x implies (#[trigger] v.sparse_sets[c].has(z)
            <==> v.entities.contains(z) && v.archetypes[v.loc(z).archetype_id.0 as int].sparse_set_components.contains(ComponentId(c))) by {
            assert(v0.sparse_sets[c].has(z) <==> v0.entities.contains(z) && v0.archetypes[v0.loc(z).archetype_id.0 as int].sparse_set_components.contains(ComponentId(c)));
            if v0.entities.contains(z) {
                assert(v0.entity_linked(z));
                assert(v.loc(z).archetype_id == v0.loc(z).archetype_id);
            }
        }
        assert forall|b: int, r: int| 0 <= b < v.archetypes.len() && 0 <= r < v.archetypes[b].entities.len() implies #[trigger] v.archetypes[b].entities[r].entity != x by {
            if !(b == ay && r == ry) {
                assert(v.archetypes[b].entities[r] == v0.archetypes[b].entities[r]);
            }
        }
        assert forall|u: int, r: int| 0 <= u < v.tables.len() && 0 <= r < v.tables[u].entities.len() implies #[trigger] v.tables[u].entities[r] != x by {
            if u == t {
                if r != row {
                    assert(rows[r] == rows0[r]);
                }
            }
        }
    } else {
        assert(v.entities == v0.entities);
        assert forall|z: Entity| #[trigger] v.entities.contains(z) implies v.entity_linked(z) by {
            assert(v0.entity_linked(z));
            let lz = v0.loc(z);
            if lz.table_id.0 == t {
                assert(lz.table_row.0 != row);
                assert(rows[lz.table_row.0 as int] == rows0[lz.table_row.0 as int]);
            }
        }
        assert forall|b: int, r: int| 0 <= b < v.archetypes.len() && 0 <= r < v.archetypes[b].entities.len()
            && v.archetypes[b].entities[r].entity != x
            implies v.entities.contains(#[trigger] v.archetypes[b].entities[r].entity)
            && v.loc(v.archetypes[b].entities[r].entity) == (EntityLocation {
                archetype_id: ArchetypeId(b as u32),
                archetype_row: ArchetypeRow(r as u32),
                table_id: v.archetypes[b].table_id,
                table_row: v.archetypes[b].entities[r].table_row,
            }) by {
            assert(v0.entities.contains(v0.archetypes[b].entities[r].entity));
        }
        assert forall|u: int, r: int| 0 <= u < v.tables.len() && 0 <= r < v.tables[u].entities.len()
            && v.tables[u].entities[r] != x
            implies v.entities.contains(#[trigger] v.tables[u].entities[r])
            && v.loc(v.tables[u].entities[r]).table_id.0 == u
            && v.loc(v.tables[u].entities[r]).table_row.0 == r by {
            if u == t {
                assert(rows[r] == rows0[r]);
            }
            assert(v0.entities.contains(v0.tables[u].entities[r]));
        }
        assert forall|c: usize, z: Entity| #[trigger] v.sparse_sets.contains_key(c) && z != x implies (#[trigger] v.sparse_sets[c].has(z)
            <==> v.entities.contains(z) && v.archetypes[v.loc(z).archetype_id.0 as int].sparse_set_components.contains(ComponentId(c))) by {
            assert(v0.sparse_sets[c].has(z) <==> v0.entities.contains(z) && v0.archetypes[v0.loc(z).archetype_id.0 as int].sparse_set_components.contains(ComponentId(c)));
        }
        assert forall|u: int, r: int| 0 <= u < v.tables.len() && 0 <= r < v.tables[u].entities.len() implies #[trigger] v.tables[u].entities[r] != x by {
            if u == t {
                assert(rows[r] == rows0[r]);
            }
        }
    }
}

/// Freeing a live entity leaves the relaxed linkage, with the entity's rows
/// where its old location says and nowhere else.
proof fn lemma_despawn_free_step(v0: WorldView, v: WorldView, x: Entity, g: u32)
    requires
        v0.linked(),
        v0.entities.contains(x),
        v0.archetypes.len() < u32::MAX,
        forall|a: int| 0 <= a < v0.archetypes.len() ==> (#[trigger] v0.archetypes[a]).entities.len() <= u32::MAX,
        forall|t: int| 0 <= t < v0.tables.len() ==> (#[trigger] v0.tables[t]).entities.len() <= u32::MAX,
        v.archetypes == v0.archetypes,
        v.tables == v0.tables,
        v.sparse_sets == v0.sparse_sets,
        v.entities.meta == v0.entities.meta.update(x.index as int, EntityMeta {
            generation: g,
            location: crate::entity::invalid_location(),
        }),
    ensures
        v.linked_except_rows(x),
        v0.entity_linked(x),
        forall|b: int, r: int| 0 <= b < v0.archetypes.len() && 0 <= r < v0.archetypes[b].entities.len()
            && #[trigger] v0.archetypes[b].entities[r].entity == x ==> b == v0.loc(x).archetype_id.0 && r == v0.loc(x).archetype_row.0,
        forall|u: int, r: int| 0 <= u < v0.tables.len() && 0 <= r < v0.tables[u].entities.len()
            && #[trigger] v0.tables[u].entities[r] == x ==> u == v0.loc(x).table_id.0 && r == v0.loc(x).table_row.0,
{
    assert(v0.entity_linked(x));
    assert forall|z: Entity| #[trigger] v.entities.contains(z) <==> v0.entities.contains(z) && z != x by {
        if z.index == x.index {
        } else if z.index < v0.entities.meta.len() {
            assert(v.entities.meta[z.index as int] == v0.entities.meta[z.index as int]);
        }
    }
    assert forall|z: Entity| #[trigger] v0.entities.contains(z) && z != x implies v.loc(z) == v0.loc(z) by {
        assert(z.index != x.index);
    }
    assert forall|z: Entity| #[trigger] v.entities.contains(z) implies v.entity_linked(z) by {
        assert(v0.entity_linked(z));
    }
    assert forall|b: int, r: int| 0 <= b < v.archetypes.len() && 0 <= r < v.archetypes[b].entities.len()
        && v.archetypes[b].entities[r].entity != x
        implies v.entities.contains(#[trigger] v.archetypes[b].entities[r].entity)
        && v.loc(v.archetypes[b].entities[r].entity) == (EntityLocation {
            archetype_id: ArchetypeId(b as u32),
            archetype_row: ArchetypeRow(r as u32),
            table_id: v.archetypes[b].table_id,
            table_row: v.archetypes[b].entities[r].table_row,
        }) by {
        assert(v0.entities.contains(v0.archetypes[b].entities[r].entity));
    }
    assert forall|u: int, r: int| 0 <= u < v.tables.len() && 0 <= r < v.tables[u].entities.len()
        && v.tables[u].entities[r] != x
        implies v.entities.contains(#[trigger] v.tables[u].entities[r])
        && v.loc(v.tables[u].entities[r]).table_id.0 == u
        && v.loc(v.tables[u].entities[r]).table_row.0 == r by {
        assert(v0.entities.contains(v0.tables[u].entities[r]));
    }
    assert forall|c: usize, z: Entity| #[trigger] v.sparse_sets.contains_key(c) && z != x implies (#[trigger] v.sparse_sets[c].has(z)
        <==> v.entities.contains(z) && v.archetypes[v.loc(z).archetype_id.0 as int].sparse_set_components.contains(ComponentId(c))) by {
        assert(v0.sparse_sets[c].has(z) <==> v0.entities.contains(z) && v0.archetypes[v0.loc(z).archetype_id.0 as int].sparse_set_components.contains(ComponentId(c)));
    }
    assert forall|b: int, r: int| 0 <= b < v0.archetypes.len() && 0 <= r < v0.archetypes[b].entities.len()
        && #[trigger] v0.archetypes[b].entities[r].entity == x implies b == v0.loc(x).archetype_id.0 && r == v0.loc(x).archetype_row.0 by {
        assert(v0.entities.contains(v0.archetypes[b].entities[r].entity));
    }
    assert forall|u: int, r: int| 0 <= u < v0.tables.len() && 0 <= r < v0.tables[u].entities.len()
        && #[trigger] v0.tables[u].entities[r] == x implies u == v0.loc(x).table_id.0 && r == v0.loc(x).table_row.0 by {
        assert(v0.entities.contains(v0.tables[u].entities[r]));
    }
}

/// Once no row and no sparse set holds the dead entity `x`, the world is
/// linked again.
proof fn lemma_linked_from_except_rows(v: WorldView, x: Entity)
    requires
        v.linked_except_rows(x),
        forall|a: int, r: int| 0 <= a < v.archetypes.len() && 0 <= r < v.archetypes[a].entities.len() ==> #[trigger] v.archetypes[a].entities[r].entity != x,
        forall|t: int, r: int| 0 <= t < v.tables.len() && 0 <= r < v.tables[t].entities.len() ==> #[trigger] v.tables[t].entities[r] != x,
        forall|c: usize| #[trigger] v.sparse_sets.contains_key(c) ==> !v.sparse_sets[c].has(x),
    ensures
        v.linked(),
{
    assert forall|c: usize, e: Entity| #[trigger] v.sparse_sets.contains_key(c) implies (#[trigger] v.sparse_sets[c].has(e)
        <==> v.entities.contains(e) && v.archetypes[v.loc(e).archetype_id.0 as int].sparse_set_components.contains(ComponentId(c))) by {
        if e == x {
        }
    }
}

/// Where the sparse membership of `x` is right too, the world is linked.
proof fn lemma_linked_from_except(v: WorldView, x: Entity)
    requires
        v.linked_except(x),
        forall|c: usize| #[trigger] v.sparse_sets.contains_key(c) ==> (v.sparse_sets[c].has(x)
            <==> v.entities.contains(x) && v.archetypes[v.loc(x).archetype_id.0 as int].sparse_set_components.contains(ComponentId(c))),
    ensures
        v.linked(),
{
    assert forall|c: usize, e: Entity| #[trigger] v.sparse_sets.contains_key(c) implies (#[trigger] v.sparse_sets[c].has(e)
        <==> v.entities.contains(e) && v.archetypes[v.loc(e).archetype_id.0 as int].sparse_set_components.contains(ComponentId(c))) by {
        if e == x {
        }
    }
}

/// The integers below `n`, as `usize`s, number `n`.
proof fn lemma_usize_range_len(n: nat)
    requires
        n <= usize::MAX + 1,
    ensures
        Set::new(|c: usize| c < n).finite(),
        Set::new(|c: usize| c < n).len() == n,
    decreases n,
{
    if n == 0 {
        assert(Set::new(|c: usize| c < n) =~= Set::<usize>::empty());
    } else {
        lemma_usize_range_len((n - 1) as nat);
        assert(Set::new(|c: usize| c < n) =~= Set::new(|c: usize| c < (n - 1) as nat).insert((n - 1) as usize));
    }
}

} // verus!
