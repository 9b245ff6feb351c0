use vstd::prelude::*;

use crate::archetype::{ArchetypeId, Archetypes, ArchetypeView, ComponentStatus, contains_id};
use crate::component::{ComponentDescriptor, ComponentId, ComponentRecord, Components, StorageType};
use crate::sparse_set::lookup;
use crate::table::{strictly_sorted, TableId, Tables, TableView};

verus! {

/// The dense identifier of a registered bundle.
#[derive(Clone, Copy, Debug, PartialEq, Eq, Structural, Hash)]
pub struct BundleId(pub usize);

impl BundleId {
    pub fn index(self) -> (r: usize)
        ensures
            r == self.0,
    {
        self.0
    }
}

/// Some id occurs twice in the list.
pub open spec fn has_duplicates(ids: Seq<ComponentId>) -> bool {
    exists|i: int, j: int| 0 <= i < j < ids.len() && ids[i] == ids[j]
}

/// Every occurrence of an id that an earlier position already holds, in order.
pub open spec fn duplicates_of(ids: Seq<ComponentId>) -> Seq<ComponentId>
    decreases ids.len(),
{
    if ids.len() == 0 {
        Seq::empty()
    } else {
        let prev = duplicates_of(ids.drop_last());
        if ids.drop_last().contains(ids.last()) {
            prev.push(ids.last())
        } else {
            prev
        }
    }
}

/// Names separated by a comma and a space.
pub open spec fn join_names(names: Seq<Seq<char>>) -> Seq<char>
    decreases names.len(),
{
    if names.len() == 0 {
        Seq::empty()
    } else if names.len() == 1 {
        names[0]
    } else {
        join_names(names.drop_last()) + seq![',', ' '] + names.last()
    }
}

/// The names of the components of a list of ids.
pub open spec fn names_of(components: Seq<ComponentRecord>, ids: Seq<ComponentId>) -> Seq<Seq<char>> {
    ids.map_values(|c: ComponentId| components[c.0 as int].name)
}

/// The error of a bundle that names a component twice.
#[derive(Debug)]
pub struct DuplicateComponents {
    pub bundle_name: String,
    /// Each repeated occurrence, in order.
    pub duplicates: Vec<ComponentId>,
    /// The names of the repeated components, separated by ", ".
    pub names: String,
}

/// The values of a bundle: for each component, its descriptor and the bytes
/// of its value, in one order.
#[derive(Debug)]
pub struct Bundle {
    pub name: String,
    pub descriptors: Vec<ComponentDescriptor>,
    pub values: Vec<Vec<u8>>,
}

impl Bundle {
    /// The bundle's values, in the order of its descriptors.
    pub fn get_components(self) -> (r: Vec<Vec<u8>>)
        ensures
            r@ == self.values@,
    {
        self.values
    }
}

/// The descriptor agrees with every registered component of its type key.
pub open spec fn descriptor_fits(components: Seq<ComponentRecord>, d: ComponentDescriptor) -> bool {
    forall|c: int| 0 <= c < components.len() && d.type_id is Some && #[trigger] components[c].type_id == d.type_id
        ==> components[c].layout == d.layout && components[c].storage_type == d.storage_type
}

/// A bundle that can be written into a world with these components: one
/// value of the declared size per descriptor, and descriptors that agree
/// with the registry and with each other on each type key.
pub open spec fn bundle_fits(components: Seq<ComponentRecord>, bundle: Bundle) -> bool {
    &&& bundle.descriptors@.len() == bundle.values@.len()
    &&& forall|i: int| 0 <= i < bundle.values@.len() ==> (#[trigger] bundle.values@[i])@.len() == bundle.descriptors@[i].layout.size
    &&& forall|i: int| 0 <= i < bundle.descriptors@.len() ==> descriptor_fits(components, #[trigger] bundle.descriptors@[i])
    &&& forall|i: int, j: int| 0 <= i < bundle.descriptors@.len() && 0 <= j < bundle.descriptors@.len()
        && (#[trigger] bundle.descriptors@[i]).type_id is Some && bundle.descriptors@[i].type_id == (#[trigger] bundle.descriptors@[j]).type_id
        ==> bundle.descriptors@[i].layout == bundle.descriptors@[j].layout
        && bundle.descriptors@[i].storage_type == bundle.descriptors@[j].storage_type
}

/// What a bundle writes: its id and its components in the order in which
/// its values come.
#[derive(Debug)]
pub struct BundleInfo {
    id: BundleId,
    component_ids: Vec<ComponentId>,
}

impl BundleInfo {
    pub closed spec fn spec_id(&self) -> BundleId {
        self.id
    }

    pub closed spec fn spec_components(&self) -> Seq<ComponentId> {
        self.component_ids@
    }

    /// The information of a bundle; fails where a component occurs twice,
    /// naming each repeated one.
    pub fn new(
        bundle_type_name: &str,
        components: &Components,
        component_ids: Vec<ComponentId>,
        id: BundleId,
    ) -> (r: Result<BundleInfo, DuplicateComponents>)
        requires
            components.wf(),
            forall|k: int| 0 <= k < component_ids@.len() ==> (#[trigger] component_ids@[k]).0 < components@.len(),
        ensures
            r is Ok <==> !has_duplicates(component_ids@),
            r matches Ok(info) ==> info.spec_id() == id && info.spec_components() == component_ids@,
            r matches Err(e) ==> {
                &&& e.bundle_name@ == bundle_type_name@
                &&& e.duplicates@ == duplicates_of(component_ids@)
                &&& e.names@ == join_names(names_of(components@, duplicates_of(component_ids@)))
                &&& e.duplicates@.len() > 0
            },
    {
        let mut dups: Vec<ComponentId> = Vec::new();
        let mut i: usize = 0;
        while i < component_ids.len()
            invariant
                i <= component_ids.len(),
                dups@ == duplicates_of(component_ids@.subrange(0, i as int)),
                (dups@.len() == 0) <==> !has_duplicates(component_ids@.subrange(0, i as int)),
            decreases component_ids.len() - i,
        {
            let ghost pre = component_ids@.subrange(0, i as int);
            let ghost next = component_ids@.subrange(0, i + 1);
            proof {
                assert(next.drop_last() =~= pre);
                assert(next.last() == component_ids@[i as int]);
            }
            let mut seen = false;
            let mut k: usize = 0;
            while k < i
                invariant
                    i < component_ids.len(),
                    k <= i,
                    pre == component_ids@.subrange(0, i as int),
                    seen == exists|j: int| 0 <= j < k && component_ids@[j] == component_ids@[i as int],
                decreases i - k,
            {
                if component_ids[k] == component_ids[i] {
                    seen = true;
                }
                k = k + 1;
            }
            proof {
                if seen {
                    let j = choose|j: int| 0 <= j < i && component_ids@[j] == component_ids@[i as int];
                    assert(pre[j] == next.last());
                }
                if pre.contains(next.last()) {
                    let j = choose|j: int| 0 <= j < pre.len() && pre[j] == next.last();
                    assert(component_ids@[j] == component_ids@[i as int]);
                }
            }
            if seen {
                dups.push(component_ids[i]);
            }
            i = i + 1;
            proof {
                if has_duplicates(next) && !seen {
                    let (a, b) = choose|a: int, b: int| 0 <= a < b < next.len() && next[a] == next[b];
                    if b == next.len() - 1 {
                        assert(pre[a] == next.last());
                    } else {
                        assert(pre[a] == pre[b]);
                    }
                }
                if has_duplicates(pre) {
                    let (a, b) = choose|a: int, b: int| 0 <= a < b < pre.len() && pre[a] == pre[b];
                    assert(next[a] == next[b]);
                }
                if seen {
                    let j = choose|j: int| 0 <= j < i - 1 && #[trigger] component_ids@[j] == component_ids@[i - 1];
                    assert(next[j] == next[i - 1]);
                }
            }
        }
        proof {
            assert(component_ids@.subrange(0, component_ids@.len() as int) =~= component_ids@);
        }
        if dups.len() == 0 {
            Ok(BundleInfo { id, component_ids })
        } else {
            let mut names = String::new();
            let mut d: usize = 0;
            while d < dups.len()
                invariant
                    d <= dups.len(),
                    components.wf(),
                    dups@ == duplicates_of(component_ids@),
                    forall|k: int| 0 <= k < component_ids@.len() ==> (#[trigger] component_ids@[k]).0 < components@.len(),
                    names@ == join_names(names_of(components@, dups@.subrange(0, d as int))),
                decreases dups.len() - d,
            {
                proof {
                    lemma_duplicates_registered(component_ids@, components@.len());
                }
                let name = components.get_name(dups[d]).unwrap();
                if d > 0 {
                    names.append(", ");
                }
                names.append(name);
                d = d + 1;
                proof {
                    let ns = names_of(components@, dups@.subrange(0, d as int));
                    assert(ns.drop_last() =~= names_of(components@, dups@.subrange(0, d - 1)));
                    assert(seq![',', ' '] =~= ", "@) by {
                        reveal_strlit(", ");
                    }
                    if d == 1 {
                        assert(ns.len() == 1);
                    }
                }
            }
            proof {
                assert(dups@.subrange(0, dups@.len() as int) =~= dups@);
            }
            Err(DuplicateComponents { bundle_name: bundle_type_name.to_owned(), duplicates: dups, names })
        }
    }

    pub fn id(&self) -> (r: BundleId)
        ensures
            r == self.spec_id(),
    {
        self.id
    }

    /// The bundle's components in the order in which its values come.
    pub fn components(&self) -> (r: &Vec<ComponentId>)
        ensures
            r@ == self.spec_components(),
    {
        &self.component_ids
    }

    /// The bundle's components, copied out in order.
    pub fn iter_components(&self) -> (r: Vec<ComponentId>)
        ensures
            r@ == self.spec_components(),
    {
        let mut out: Vec<ComponentId> = Vec::new();
        let mut i: usize = 0;
        while i < self.component_ids.len()
            invariant
                i <= self.component_ids.len(),
                out@ == self.component_ids@.subrange(0, i as int),
            decreases self.component_ids.len() - i,
        {
            out.push(self.component_ids[i]);
            i = i + 1;
            proof {
                assert(out@ =~= self.component_ids@.subrange(0, i as int));
            }
        }
        proof {
            assert(out@ =~= self.component_ids@);
        }
        out
    }
}

/// The registry of bundles: ids are positions, every bundle's components
/// are distinct, and no two bundles list the same components.
#[derive(Debug)]
pub struct Bundles {
    bundle_infos: Vec<BundleInfo>,
}

impl View for Bundles {
    type V = Seq<Seq<ComponentId>>;

    closed spec fn view(&self) -> Seq<Seq<ComponentId>> {
        self.bundle_infos@.map_values(|b: BundleInfo| b.component_ids@)
    }
}

impl Bundles {
    pub closed spec fn wf(&self) -> bool {
        &&& forall|b: int| 0 <= b < self.bundle_infos.len() ==> (#[trigger] self.bundle_infos@[b]).id.0 == b
        &&& forall|b: int| 0 <= b < self.bundle_infos.len() ==> !has_duplicates(#[trigger] self@[b])
        &&& forall|b: int, c: int| 0 <= b < self.bundle_infos.len() && 0 <= c < self.bundle_infos.len() && b != c
            ==> self@[b] != self@[c]
    }

    /// Every bundle's components are distinct.
    pub proof fn lemma_wf(&self)
        requires
            self.wf(),
        ensures
            forall|b: int| 0 <= b < self@.len() ==> !has_duplicates(#[trigger] self@[b]),
    {
    }

    pub fn new() -> (r: Bundles)
        ensures
            r.wf(),
            r@.len() == 0,
    {
        Bundles { bundle_infos: Vec::new() }
    }

    pub fn len(&self) -> (r: usize)
        ensures
            r == self@.len(),
    {
        self.bundle_infos.len()
    }

    pub fn get(&self, bundle_id: BundleId) -> (r: Option<&BundleInfo>)
        requires
            self.wf(),
        ensures
            r is Some <==> bundle_id.0 < self@.len(),
            r matches Some(info) ==> info.spec_id() == bundle_id && info.spec_components() == self@[bundle_id.0 as int],
    {
        if bundle_id.0 < self.bundle_infos.len() {
            proof {
                assert(self@[bundle_id.0 as int] == self.bundle_infos@[bundle_id.0 as int].component_ids@);
            }
            Some(&self.bundle_infos[bundle_id.0])
        } else {
            None
        }
    }

    /// The id of the bundle of these components, registered on first
    /// request; fails, registering nothing, where a component occurs twice.
    pub fn init_info(&mut self, bundle_type_name: &str, components: &Components, component_ids: Vec<ComponentId>) -> (r: Result<BundleId, DuplicateComponents>)
        requires
            old(self).wf(),
            components.wf(),
            forall|k: int| 0 <= k < component_ids@.len() ==> (#[trigger] component_ids@[k]).0 < components@.len(),
        ensures
            final(self).wf(),
            r is Ok <==> !has_duplicates(component_ids@),
            r matches Ok(id) ==> id.0 < final(self)@.len() && final(self)@[id.0 as int] == component_ids@,
            r matches Ok(id) ==> (id.0 < old(self)@.len() ==> final(self)@ == old(self)@)
                && (id.0 >= old(self)@.len() ==> final(self)@ == old(self)@.push(component_ids@)),
            r is Err ==> final(self)@ == old(self)@,
            r matches Err(e) ==> e.duplicates@ == duplicates_of(component_ids@)
                && e.names@ == join_names(names_of(components@, duplicates_of(component_ids@)))
                && e.duplicates@.len() > 0 && e.bundle_name@ == bundle_type_name@,
    {
        let mut b: usize = 0;
        while b < self.bundle_infos.len()
            invariant
                self.wf(),
                b <= self.bundle_infos.len(),
                forall|k: int| 0 <= k < b ==> self@[k] != component_ids@,
            decreases self.bundle_infos.len() - b,
        {
            if crate::table::same_ids(&self.bundle_infos[b].component_ids, &component_ids) {
                proof {
                    assert(self@[b as int] == self.bundle_infos@[b as int].component_ids@);
                }
                return Ok(BundleId(b));
            }
            proof {
                assert(self@[b as int] == self.bundle_infos@[b as int].component_ids@);
            }
            b = b + 1;
        }
        let id = BundleId(self.bundle_infos.len());
        match BundleInfo::new(bundle_type_name, components, component_ids, id) {
            Ok(info) => {
                self.bundle_infos.push(info);
                proof {
                    let s = self@;
                    assert(s =~= old(self)@.push(info.component_ids@));
                    assert forall|x: int, y: int| 0 <= x < s.len() && 0 <= y < s.len() && x != y implies s[x] != s[y] by {
                        if x < old(self)@.len() && y < old(self)@.len() {
                            assert(s[x] == old(self)@[x]);
                            assert(s[y] == old(self)@[y]);
                        } else if x == old(self)@.len() {
                            assert(s[y] == old(self)@[y]);
                        } else {
                            assert(s[x] == old(self)@[x]);
                        }
                    }
                    assert forall|x: int| 0 <= x < s.len() implies !has_duplicates(#[trigger] s[x]) by {
                        if x < old(self)@.len() {
                            assert(s[x] == old(self)@[x]);
                        }
                    }
                }
                Ok(id)
            },
            Err(e) => Err(e),
        }
    }
}

/// The components of `ids` whose storage class is `class`.
pub open spec fn of_class(components: Seq<ComponentRecord>, ids: Seq<ComponentId>, class: StorageType) -> Set<ComponentId> {
    ids.to_set().filter(|c: ComponentId| components[c.0 as int].storage_type == class)
}

/// Archetype `d` has the components of archetype `a` and those of `ids`.
pub open spec fn reaches(archetypes: Seq<ArchetypeView>, components: Seq<ComponentRecord>, a: int, d: int, ids: Seq<ComponentId>) -> bool {
    &&& archetypes[d].table_components.to_set() == archetypes[a].table_components.to_set() + of_class(components, ids, StorageType::Table)
    &&& archetypes[d].sparse_set_components.to_set() == archetypes[a].sparse_set_components.to_set() + of_class(components, ids, StorageType::SparseSet)
}

/// The status of each component of `ids` when added to archetype `a`.
pub open spec fn statuses(archetype: ArchetypeView, ids: Seq<ComponentId>) -> Seq<ComponentStatus> {
    ids.map_values(|c: ComponentId| if archetype.contains(c) { ComponentStatus::Mutated } else { ComponentStatus::Added })
}

/// Every archetype keeps each component in the list of its storage class,
/// and only registered components.
pub open spec fn classes_ok(archetypes: Seq<ArchetypeView>, components: Seq<ComponentRecord>) -> bool {
    &&& forall|a: int, c: ComponentId| 0 <= a < archetypes.len() && #[trigger] archetypes[a].table_components.contains(c)
        ==> c.0 < components.len() && components[c.0 as int].storage_type == StorageType::Table
    &&& forall|a: int, c: ComponentId| 0 <= a < archetypes.len() && #[trigger] archetypes[a].sparse_set_components.contains(c)
        ==> c.0 < components.len() && components[c.0 as int].storage_type == StorageType::SparseSet
}

/// Every cached transition leads to the archetype that adds the bundle's
/// components, with the right statuses.
pub open spec fn edges_ok(archetypes: Seq<ArchetypeView>, components: Seq<ComponentRecord>, bundles: Seq<Seq<ComponentId>>) -> bool {
    forall|a: int, b: int| 0 <= a < archetypes.len() && (#[trigger] lookup(archetypes[a].edges, b)) is Some ==> {
        let e = lookup(archetypes[a].edges, b)->Some_0;
        &&& 0 <= b < bundles.len()
        &&& e.archetype_id.0 < archetypes.len()
        &&& reaches(archetypes, components, a, e.archetype_id.0 as int, bundles[b])
        &&& e.bundle_status@ == statuses(archetypes[a], bundles[b])
    }
}

/// Every archetype's table has exactly the archetype's table components.
pub open spec fn tables_linked(archetypes: Seq<ArchetypeView>, tables: Seq<TableView>) -> bool {
    forall|a: int| 0 <= a < archetypes.len() ==> (#[trigger] archetypes[a]).table_id.0 < tables.len()
        && tables[archetypes[a].table_id.0 as int].ids == archetypes[a].table_components
}

/// `next` keeps every archetype of `prev` but for its cached transitions,
/// and may add new ones.
pub open spec fn extends(prev: Seq<ArchetypeView>, next: Seq<ArchetypeView>) -> bool {
    &&& prev.len() <= next.len()
    &&& forall|x: int| 0 <= x < prev.len() ==> #[trigger] next[x] == (ArchetypeView { edges: next[x].edges, ..prev[x] })
}

/// Cached transitions of `prev` that `next` keeps stay valid in `next`.
proof fn lemma_edges_extend(prev: Seq<ArchetypeView>, next: Seq<ArchetypeView>, components: Seq<ComponentRecord>, bundles: Seq<Seq<ComponentId>>, a: int, b: int)
    requires
        extends(prev, next),
        edges_ok(prev, components, bundles),
        0 <= a < prev.len(),
        lookup(prev[a].edges, b) is Some,
    ensures
        ({
            let e = lookup(prev[a].edges, b)->Some_0;
            &&& 0 <= b < bundles.len()
            &&& e.archetype_id.0 < next.len()
            &&& reaches(next, components, a, e.archetype_id.0 as int, bundles[b])
            &&& e.bundle_status@ == statuses(next[a], bundles[b])
        }),
{
    let e = lookup(prev[a].edges, b)->Some_0;
    let d = e.archetype_id.0 as int;
    assert(next[a] == (ArchetypeView { edges: next[a].edges, ..prev[a] }));
    assert(next[d] == (ArchetypeView { edges: next[d].edges, ..prev[d] }));
    assert(statuses(next[a], bundles[b]) =~= statuses(prev[a], bundles[b]));
}

/// `next` has the archetypes of `prev` with the same components, tables and
/// cached transitions; only their members may differ.
pub open spec fn same_graph(prev: Seq<ArchetypeView>, next: Seq<ArchetypeView>) -> bool {
    &&& prev.len() == next.len()
    &&& forall|x: int| 0 <= x < prev.len() ==> {
        &&& (#[trigger] next[x]).table_components == prev[x].table_components
        &&& next[x].sparse_set_components == prev[x].sparse_set_components
        &&& next[x].edges == prev[x].edges
        &&& next[x].table_id == prev[x].table_id
    }
}

/// Changing only the members of archetypes, and only the rows of tables,
/// keeps the graph invariants.
pub proof fn lemma_same_graph(
    a0: Seq<ArchetypeView>,
    a1: Seq<ArchetypeView>,
    components: Seq<ComponentRecord>,
    bundles: Seq<Seq<ComponentId>>,
    t0: Seq<TableView>,
    t1: Seq<TableView>,
)
    requires
        same_graph(a0, a1),
        classes_ok(a0, components),
        edges_ok(a0, components, bundles),
        tables_linked(a0, t0),
        t0.len() == t1.len(),
        forall|t: int| 0 <= t < t0.len() ==> (#[trigger] t1[t]).ids == t0[t].ids,
    ensures
        classes_ok(a1, components),
        edges_ok(a1, components, bundles),
        tables_linked(a1, t1),
{
    assert forall|x: int, c: ComponentId| 0 <= x < a1.len() && #[trigger] a1[x].table_components.contains(c)
        implies c.0 < components.len() && components[c.0 as int].storage_type == StorageType::Table by {
        assert(a1[x].table_components == a0[x].table_components);
    }
    assert forall|x: int, c: ComponentId| 0 <= x < a1.len() && #[trigger] a1[x].sparse_set_components.contains(c)
        implies c.0 < components.len() && components[c.0 as int].storage_type == StorageType::SparseSet by {
        assert(a1[x].sparse_set_components == a0[x].sparse_set_components);
    }
    assert forall|x: int, b: int| 0 <= x < a1.len() && (#[trigger] lookup(a1[x].edges, b)) is Some implies {
        let e = lookup(a1[x].edges, b)->Some_0;
        &&& 0 <= b < bundles.len()
        &&& e.archetype_id.0 < a1.len()
        &&& reaches(a1, components, x, e.archetype_id.0 as int, bundles[b])
        &&& e.bundle_status@ == statuses(a1[x], bundles[b])
    } by {
        assert(a1[x].edges == a0[x].edges);
        assert(lookup(a0[x].edges, b) is Some);
        let e = lookup(a0[x].edges, b)->Some_0;
        let d = e.archetype_id.0 as int;
        assert(a1[d].table_components == a0[d].table_components);
        assert(a1[d].sparse_set_components == a0[d].sparse_set_components);
        assert(statuses(a1[x], bundles[b]) =~= statuses(a0[x], bundles[b]));
    }
    assert forall|x: int| 0 <= x < a1.len() implies (#[trigger] a1[x]).table_id.0 < t1.len()
        && t1[a1[x].table_id.0 as int].ids == a1[x].table_components by {
        assert(a1[x].table_id == a0[x].table_id);
        assert(a0[x].table_id.0 < t0.len());
    }
}

/// Archetype `x` has the components of archetype `d` but those of `ids`.
pub open spec fn removes(archetypes: Seq<ArchetypeView>, d: int, x: int, ids: Seq<ComponentId>) -> bool {
    &&& archetypes[x].table_components.to_set() == archetypes[d].table_components.to_set().difference(ids.to_set())
    &&& archetypes[x].sparse_set_components.to_set() == archetypes[d].sparse_set_components.to_set().difference(ids.to_set())
}

/// Adding a bundle none of whose components an archetype has, and then
/// removing the bundle's components, leads back to the same archetype.
pub proof fn lemma_add_then_remove(
    archetypes: Seq<ArchetypeView>,
    components: Seq<ComponentRecord>,
    a: int,
    d: int,
    x: int,
    ids: Seq<ComponentId>,
)
    requires
        crate::archetype::archetypes_wf(archetypes),
        0 <= a < archetypes.len(),
        0 <= d < archetypes.len(),
        0 <= x < archetypes.len(),
        forall|k: int| 0 <= k < ids.len() ==> !archetypes[a].contains(#[trigger] ids[k]),
        reaches(archetypes, components, a, d, ids),
        removes(archetypes, d, x, ids),
    ensures
        x == a,
{
    let ta = archetypes[a].table_components;
    let sa = archetypes[a].sparse_set_components;
    assert(archetypes[x].table_components.to_set() =~= ta.to_set()) by {
        assert forall|c: ComponentId| ta.to_set().contains(c) implies !ids.to_set().contains(c) by {
            if ids.to_set().contains(c) {
                let k = choose|k: int| 0 <= k < ids.len() && ids[k] == c;
                assert(ta.contains(c));
            }
        }
    }
    assert(archetypes[x].sparse_set_components.to_set() =~= sa.to_set()) by {
        assert forall|c: ComponentId| sa.to_set().contains(c) implies !ids.to_set().contains(c) by {
            if ids.to_set().contains(c) {
                let k = choose|k: int| 0 <= k < ids.len() && ids[k] == c;
                assert(sa.contains(c));
            }
        }
    }
    lemma_sorted_set_eq(archetypes[x].table_components, ta);
    lemma_sorted_set_eq(archetypes[x].sparse_set_components, sa);
}

/// Registering another bundle keeps every cached transition valid.
pub proof fn lemma_edges_bundles_grow(archetypes: Seq<ArchetypeView>, components: Seq<ComponentRecord>, bundles: Seq<Seq<ComponentId>>, next: Seq<ComponentId>)
    requires
        edges_ok(archetypes, components, bundles),
    ensures
        edges_ok(archetypes, components, bundles.push(next)),
{
    let nb = bundles.push(next);
    assert forall|a: int, b: int| 0 <= a < archetypes.len() && (#[trigger] lookup(archetypes[a].edges, b)) is Some implies {
        let e = lookup(archetypes[a].edges, b)->Some_0;
        &&& 0 <= b < nb.len()
        &&& e.archetype_id.0 < archetypes.len()
        &&& reaches(archetypes, components, a, e.archetype_id.0 as int, nb[b])
        &&& e.bundle_status@ == statuses(archetypes[a], nb[b])
    } by {
        assert(nb[b] == bundles[b]);
    }
}

/// Registering more components keeps every cached transition valid.
pub proof fn lemma_edges_components_grow(archetypes: Seq<ArchetypeView>, prev: Seq<ComponentRecord>, next: Seq<ComponentRecord>, bundles: Seq<Seq<ComponentId>>)
    requires
        edges_ok(archetypes, prev, bundles),
        prev.len() <= next.len(),
        next.subrange(0, prev.len() as int) == prev,
        forall|b: int, k: int| 0 <= b < bundles.len() && 0 <= k < bundles[b].len() ==> (#[trigger] bundles[b][k]).0 < prev.len(),
    ensures
        edges_ok(archetypes, next, bundles),
{
    assert forall|b: int, class: StorageType| 0 <= b < bundles.len() implies #[trigger] of_class(next, bundles[b], class) == of_class(prev, bundles[b], class) by {
        assert forall|c: ComponentId| bundles[b].to_set().contains(c) implies next[c.0 as int] == prev[c.0 as int] by {
            let k = choose|k: int| 0 <= k < bundles[b].len() && bundles[b][k] == c;
            assert(bundles[b][k].0 < prev.len());
            assert(next.subrange(0, prev.len() as int)[c.0 as int] == next[c.0 as int]);
        }
        assert(of_class(next, bundles[b], class) =~= of_class(prev, bundles[b], class));
    }
    assert forall|a: int, b: int| 0 <= a < archetypes.len() && (#[trigger] lookup(archetypes[a].edges, b)) is Some implies {
        let e = lookup(archetypes[a].edges, b)->Some_0;
        &&& 0 <= b < bundles.len()
        &&& e.archetype_id.0 < archetypes.len()
        &&& reaches(archetypes, next, a, e.archetype_id.0 as int, bundles[b])
        &&& e.bundle_status@ == statuses(archetypes[a], bundles[b])
    } by {
        assert(of_class(next, bundles[b], StorageType::Table) == of_class(prev, bundles[b], StorageType::Table));
        assert(of_class(next, bundles[b], StorageType::SparseSet) == of_class(prev, bundles[b], StorageType::SparseSet));
    }
}

/// Two strictly sorted lists of ids with the same elements are equal.
pub proof fn lemma_sorted_set_eq(s1: Seq<ComponentId>, s2: Seq<ComponentId>)
    requires
        strictly_sorted(s1),
        strictly_sorted(s2),
        s1.to_set() == s2.to_set(),
    ensures
        s1 == s2,
    decreases s1.len() + s2.len(),
{
    if s1.len() == 0 {
        if s2.len() > 0 {
            assert(s2.to_set().contains(s2[0]));
        }
        assert(s1 =~= s2);
    } else if s2.len() == 0 {
        assert(s1.to_set().contains(s1[0]));
    } else {
        assert(s1.to_set().contains(s1[0]));
        assert(s2.to_set().contains(s2[0]));
        let i2 = choose|k: int| 0 <= k < s2.len() && s2[k] == s1[0];
        let i1 = choose|k: int| 0 <= k < s1.len() && s1[k] == s2[0];
        if i2 > 0 {
            assert(s2[0].0 < s2[i2].0);
        }
        if i1 > 0 {
            assert(s1[0].0 < s1[i1].0);
        }
        assert(s1[0] == s2[0]);
        let t1 = s1.drop_first();
        let t2 = s2.drop_first();
        assert(t1.to_set() == t2.to_set()) by {
            assert forall|c: ComponentId| t1.to_set().contains(c) <==> t2.to_set().contains(c) by {
                if t1.contains(c) {
                    let k = choose|k: int| 0 <= k < t1.len() && t1[k] == c;
                    assert(s1[k + 1] == c);
                    assert(s1.contains(c));
                    assert(s2.to_set().contains(c));
                    let j = choose|j: int| 0 <= j < s2.len() && s2[j] == c;
                    assert(s1[0].0 < c.0);
                    assert(j != 0);
                    assert(t2[j - 1] == c);
                }
                if t2.contains(c) {
                    let k = choose|k: int| 0 <= k < t2.len() && t2[k] == c;
                    assert(s2[k + 1] == c);
                    assert(s2.contains(c));
                    assert(s1.to_set().contains(c));
                    let j = choose|j: int| 0 <= j < s1.len() && s1[j] == c;
                    assert(s2[0].0 < c.0);
                    assert(j != 0);
                    assert(t1[j - 1] == c);
                }
            }
            assert(t1.to_set() =~= t2.to_set());
        }
        lemma_sorted_set_eq(t1, t2);
        assert(s1 =~= s2) by {
            assert forall|k: int| 0 <= k < s1.len() implies s1[k] == s2[k] by {
                if k > 0 {
                    assert(s1[k] == t1[k - 1]);
                    assert(s2[k] == t2[k - 1]);
                }
            }
        }
    }
}

/// A strictly sorted list of ids below `n` has at most `n` entries.
pub proof fn lemma_sorted_len(s: Seq<ComponentId>, n: nat)
    requires
        strictly_sorted(s),
        forall|k: int| 0 <= k < s.len() ==> (#[trigger] s[k]).0 < n,
    ensures
        s.len() <= n,
{
    if s.len() > 0 {
        lemma_sorted_at_least(s, s.len() - 1);
    }
}

proof fn lemma_sorted_at_least(s: Seq<ComponentId>, i: int)
    requires
        strictly_sorted(s),
        0 <= i < s.len(),
    ensures
        s[i].0 >= i,
    decreases i,
{
    if i > 0 {
        lemma_sorted_at_least(s, i - 1);
    }
}

/// Inserts an id into a strictly sorted list that lacks it.
pub fn insert_sorted(v: &mut Vec<ComponentId>, id: ComponentId)
    requires
        strictly_sorted(old(v)@),
        !old(v)@.contains(id),
    ensures
        strictly_sorted(final(v)@),
        final(v)@.to_set() == old(v)@.to_set().insert(id),
        final(v)@.len() == old(v)@.len() + 1,
{
    let mut p: usize = 0;
    while p < v.len() && v[p].0 < id.0
        invariant
            p <= v.len(),
            forall|k: int| 0 <= k < p ==> (#[trigger] v@[k]).0 < id.0,
        decreases v.len() - p,
    {
        p = p + 1;
    }
    let ghost prev = v@;
    v.insert(p, id);
    proof {
        if p < prev.len() {
            assert(prev[p as int].0 >= id.0);
            assert(prev[p as int] != id);
            assert(prev[p as int].0 != id.0);
        }
        assert forall|i: int, j: int| 0 <= i < j < v@.len() implies v@[i].0 < v@[j].0 by {
            if j < p {
            } else if j == p {
                assert(v@[i] == prev[i]);
            } else if i < p {
                assert(v@[j] == prev[j - 1]);
                if p < prev.len() {
                    assert(prev[p as int].0 <= prev[j - 1].0);
                }
            } else if i == p {
                assert(v@[j] == prev[j - 1]);
                assert(prev[p as int].0 <= prev[j - 1].0);
            } else {
                assert(v@[j] == prev[j - 1]);
                assert(v@[i] == prev[i - 1]);
            }
        }
        assert forall|c: ComponentId| v@.to_set().contains(c) <==> prev.to_set().insert(id).contains(c) by {
            if v@.contains(c) {
                let k = choose|k: int| 0 <= k < v@.len() && v@[k] == c;
                if k < p {
                    assert(prev[k] == c);
                } else if k > p {
                    assert(prev[k - 1] == c);
                }
            }
            if prev.contains(c) {
                let k = choose|k: int| 0 <= k < prev.len() && prev[k] == c;
                if k < p {
                    assert(v@[k] == c);
                } else {
                    assert(v@[k + 1] == c);
                }
            }
            if c == id {
                assert(v@[p as int] == id);
            }
        }
        assert(v@.to_set() =~= prev.to_set().insert(id));
    }
}

/// A copy of a list of ids.
pub fn copy_ids(v: &Vec<ComponentId>) -> (r: Vec<ComponentId>)
    ensures
        r@ == v@,
{
    let mut out: Vec<ComponentId> = Vec::new();
    let mut i: usize = 0;
    while i < v.len()
        invariant
            i <= v.len(),
            out@ == v@.subrange(0, i as int),
        decreases v.len() - i,
    {
        out.push(v[i]);
        i = i + 1;
        proof {
            assert(out@ =~= v@.subrange(0, i as int));
        }
    }
    proof {
        assert(out@ =~= v@);
    }
    out
}

impl BundleInfo {
    /// The archetype that an entity of `archetype_id` moves to when this
    /// bundle is added: looked up in the transition cache, else computed,
    /// made if new, and cached with the status of each component.
    pub fn add_bundle_to_archetype(
        &self,
        archetypes: &mut Archetypes,
        tables: &mut Tables,
        components: &Components,
        bundles: &Bundles,
        archetype_id: ArchetypeId,
    ) -> (r: ArchetypeId)
        requires
            old(archetypes).wf(),
            old(tables).wf(),
            components.wf(),
            bundles.wf(),
            self.spec_id().0 < bundles@.len(),
            self.spec_id().0 < usize::MAX,
            bundles@[self.spec_id().0 as int] == self.spec_components(),
            forall|k: int| 0 <= k < self.spec_components().len() ==> (#[trigger] self.spec_components()[k]).0 < components@.len(),
            classes_ok(old(archetypes)@, components@),
            edges_ok(old(archetypes)@, components@, bundles@),
            tables_linked(old(archetypes)@, old(tables)@),
            archetype_id.0 < old(archetypes)@.len(),
            old(archetypes)@.len() < u32::MAX - 1,
            old(tables)@.len() < u32::MAX,
            old(archetypes).spec_component_count() + 2 * components@.len() <= usize::MAX,
        ensures
            final(archetypes).wf(),
            final(tables).wf(),
            classes_ok(final(archetypes)@, components@),
            edges_ok(final(archetypes)@, components@, bundles@),
            tables_linked(final(archetypes)@, final(tables)@),
            extends(old(archetypes)@, final(archetypes)@),
            forall|x: int| old(archetypes)@.len() <= x < final(archetypes)@.len() ==> (#[trigger] final(archetypes)@[x]).entities.len() == 0,
            old(tables)@.len() <= final(tables)@.len(),
            final(tables)@.subrange(0, old(tables)@.len() as int) == old(tables)@,
            forall|t: int| old(tables)@.len() <= t < final(tables)@.len() ==> (#[trigger] final(tables)@[t]).entities.len() == 0,
            forall|t: int, k: int| old(tables)@.len() <= t < final(tables)@.len() && 0 <= k < final(tables)@[t].ids.len()
                ==> (#[trigger] final(tables)@[t].ids[k]).0 < components@.len()
                && final(tables)@[t].columns[k].layout == components@[final(tables)@[t].ids[k].0 as int].layout,
            final(archetypes).spec_component_count() <= old(archetypes).spec_component_count() + 2 * components@.len(),
            r.0 < final(archetypes)@.len(),
            reaches(final(archetypes)@, components@, archetype_id.0 as int, r.0 as int, self.spec_components()),
            lookup(final(archetypes)@[archetype_id.0 as int].edges, self.spec_id().0 as int) is Some,
            lookup(final(archetypes)@[archetype_id.0 as int].edges, self.spec_id().0 as int)->Some_0.archetype_id == r,
            lookup(final(archetypes)@[archetype_id.0 as int].edges, self.spec_id().0 as int)->Some_0.bundle_status@
                == statuses(old(archetypes)@[archetype_id.0 as int], self.spec_components()),
            forall|x: int, b: int| 0 <= x < old(archetypes)@.len() && !(x == archetype_id.0 && b == self.spec_id().0)
                ==> #[trigger] lookup(final(archetypes)@[x].edges, b) == lookup(old(archetypes)@[x].edges, b),
            lookup(old(archetypes)@[archetype_id.0 as int].edges, self.spec_id().0 as int) is Some
                ==> final(archetypes)@ == old(archetypes)@ && final(tables)@ == old(tables)@,
    {
        let ghost a0 = old(archetypes)@;
        let ghost t0 = old(tables)@;
        let ghost cs = components@;
        let ghost ids = self.component_ids@;
        let ghost a = archetype_id.0 as int;
        let bid = self.id.0;
        if let Some(dest) = archetypes.at(archetype_id).edges().get_add_bundle(bid) {
            proof {
                assert(extends(a0, a0)) by {
                    assert forall|x: int| 0 <= x < a0.len() implies #[trigger] a0[x] == (ArchetypeView { edges: a0[x].edges, ..a0[x] }) by {}
                }
                assert(t0.subrange(0, t0.len() as int) =~= t0);
            }
            return dest;
        }
        let current = archetypes.at(archetype_id);
        let ghost cur = a0[a];
        let mut new_table = copy_ids(current.table_components());
        let mut new_sparse = copy_ids(current.sparse_set_components());
        let mut added_table = false;
        let mut added_sparse = false;
        let mut status: Vec<ComponentStatus> = Vec::new();
        let mut i: usize = 0;
        proof {
            archetypes.lemma_wf();
            assert(cur.wf());
        }
        while i < self.component_ids.len()
            invariant
                components.wf(),
                cs == components@,
                ids == self.component_ids@,
                cur == current@,
                cur.wf(),
                !has_duplicates(ids),
                forall|k: int| 0 <= k < ids.len() ==> (#[trigger] ids[k]).0 < cs.len(),
                forall|c: ComponentId| #[trigger] cur.table_components.contains(c) ==> c.0 < cs.len() && cs[c.0 as int].storage_type == StorageType::Table,
                forall|c: ComponentId| #[trigger] cur.sparse_set_components.contains(c) ==> c.0 < cs.len() && cs[c.0 as int].storage_type == StorageType::SparseSet,
                i <= ids.len(),
                strictly_sorted(new_table@),
                strictly_sorted(new_sparse@),
                new_table@.to_set() == cur.table_components.to_set() + of_class(cs, ids.subrange(0, i as int), StorageType::Table),
                new_sparse@.to_set() == cur.sparse_set_components.to_set() + of_class(cs, ids.subrange(0, i as int), StorageType::SparseSet),
                forall|c: ComponentId| #[trigger] new_table@.contains(c) ==> c.0 < cs.len() && cs[c.0 as int].storage_type == StorageType::Table,
                forall|c: ComponentId| #[trigger] new_sparse@.contains(c) ==> c.0 < cs.len() && cs[c.0 as int].storage_type == StorageType::SparseSet,
                !added_table ==> new_table@ == cur.table_components,
                !added_sparse ==> new_sparse@ == cur.sparse_set_components,
                status@ == statuses(cur, ids.subrange(0, i as int)),
            decreases self.component_ids.len() - i,
        {
            let c = self.component_ids[i];
            let ghost pre = ids.subrange(0, i as int);
            let ghost next = ids.subrange(0, i + 1);
            proof {
                assert(next =~= pre.push(c));
                assert(next.to_set() =~= pre.to_set().insert(c)) by {
                    assert forall|x: ComponentId| next.to_set().contains(x) <==> pre.to_set().insert(c).contains(x) by {
                        if next.contains(x) {
                            let j = choose|j: int| 0 <= j < next.len() && next[j] == x;
                            if j < pre.len() {
                                assert(pre[j] == x);
                            }
                        }
                        if pre.contains(x) {
                            let j = choose|j: int| 0 <= j < pre.len() && pre[j] == x;
                            assert(next[j] == x);
                        }
                        if x == c {
                            assert(next[i as int] == c);
                        }
                    }
                }
                assert(!pre.contains(c)) by {
                    if pre.contains(c) {
                        let j = choose|j: int| 0 <= j < pre.len() && pre[j] == c;
                        assert(ids[j] == ids[i as int]);
                    }
                }
            }
            if current.contains(c) {
                status.push(ComponentStatus::Mutated);
                proof {
                    if cs[c.0 as int].storage_type == StorageType::Table {
                        assert(cur.table_components.contains(c));
                        assert(cur.table_components.to_set().contains(c));
                    } else {
                        assert(cur.sparse_set_components.contains(c));
                        assert(cur.sparse_set_components.to_set().contains(c));
                    }
                    assert(new_table@.to_set() =~= cur.table_components.to_set() + of_class(cs, next, StorageType::Table));
                    assert(new_sparse@.to_set() =~= cur.sparse_set_components.to_set() + of_class(cs, next, StorageType::SparseSet));
                }
            } else {
                status.push(ComponentStatus::Added);
                proof {
                    assert(!new_table@.to_set().contains(c));
                    assert(!new_sparse@.to_set().contains(c));
                }
                match components.storage_type_of(c) {
                    StorageType::Table => {
                        insert_sorted(&mut new_table, c);
                        added_table = true;
                    },
                    StorageType::SparseSet => {
                        insert_sorted(&mut new_sparse, c);
                        added_sparse = true;
                    },
                }
                proof {
                    assert(new_table@.to_set() =~= cur.table_components.to_set() + of_class(cs, next, StorageType::Table));
                    assert(new_sparse@.to_set() =~= cur.sparse_set_components.to_set() + of_class(cs, next, StorageType::SparseSet));
                    assert forall|x: ComponentId| #[trigger] new_table@.contains(x) implies x.0 < cs.len() && cs[x.0 as int].storage_type == StorageType::Table by {
                        assert(new_table@.to_set().contains(x));
                    }
                    assert forall|x: ComponentId| #[trigger] new_sparse@.contains(x) implies x.0 < cs.len() && cs[x.0 as int].storage_type == StorageType::SparseSet by {
                        assert(new_sparse@.to_set().contains(x));
                    }
                }
            }
            i = i + 1;
            proof {
                assert(status@ =~= statuses(cur, next));
            }
        }
        proof {
            assert(ids.subrange(0, ids.len() as int) =~= ids);
            assert(status@ == statuses(cur, ids));
        }
        if !added_table && !added_sparse {
            archetypes.insert_add_bundle(archetype_id, bid, archetype_id, status);
            proof {
                let a1 = archetypes@;
                assert(extends(a0, a1));
                assert(t0.subrange(0, t0.len() as int) =~= t0);
                assert(a1[a] == (ArchetypeView { edges: a1[a].edges, ..a0[a] }));
                assert forall|x: int, b: int| 0 <= x < a1.len() && (#[trigger] lookup(a1[x].edges, b)) is Some implies {
                    let e = lookup(a1[x].edges, b)->Some_0;
                    &&& 0 <= b < bundles@.len()
                    &&& e.archetype_id.0 < a1.len()
                    &&& reaches(a1, cs, x, e.archetype_id.0 as int, bundles@[b])
                    &&& e.bundle_status@ == statuses(a1[x], bundles@[b])
                } by {
                    if x == a && b == bid {
                        assert(statuses(a1[x], ids) =~= statuses(cur, ids));
                    } else {
                        assert(lookup(a1[x].edges, b) == lookup(a0[x].edges, b));
                        lemma_edges_extend(a0, a1, cs, bundles@, x, b);
                    }
                }
                assert forall|x: int, c: ComponentId| 0 <= x < a1.len() && #[trigger] a1[x].table_components.contains(c)
                    implies c.0 < cs.len() && cs[c.0 as int].storage_type == StorageType::Table by {
                    assert(a1[x].table_components == a0[x].table_components);
                }
                assert forall|x: int, c: ComponentId| 0 <= x < a1.len() && #[trigger] a1[x].sparse_set_components.contains(c)
                    implies c.0 < cs.len() && cs[c.0 as int].storage_type == StorageType::SparseSet by {
                    assert(a1[x].sparse_set_components == a0[x].sparse_set_components);
                }
                assert forall|x: int| 0 <= x < a1.len() implies (#[trigger] a1[x]).table_id.0 < t0.len()
                    && t0[a1[x].table_id.0 as int].ids == a1[x].table_components by {
                    assert(a1[x].table_id == a0[x].table_id);
                }
            }
            return archetype_id;
        }
        proof {
            assert forall|k: int| 0 <= k < new_table@.len() implies (#[trigger] new_table@[k]).0 < cs.len() by {
                assert(new_table@.contains(new_table@[k]));
            }
            assert forall|k: int| 0 <= k < new_sparse@.len() implies (#[trigger] new_sparse@[k]).0 < cs.len() by {
                assert(new_sparse@.contains(new_sparse@[k]));
            }
        }
        let table_id = if added_table {
            tables.get_id_or_insert(&new_table, components)
        } else {
            current.table_id()
        };
        let ghost t1 = tables@;
        proof {
            tables.lemma_wf();
            assert forall|t: int, k: int| t0.len() <= t < t1.len() && 0 <= k < t1[t].ids.len()
                implies (#[trigger] t1[t].ids[k]).0 < cs.len() && t1[t].columns[k].layout == cs[t1[t].ids[k].0 as int].layout by {
                assert(added_table);
                assert(t1[t].ids == new_table@);
            }
            lemma_sorted_len(new_table@, cs.len());
            lemma_sorted_len(new_sparse@, cs.len());
            if !added_table {
                assert(t1 == t0);
            }
            assert(t1[table_id.0 as int].ids == new_table@);
            assert forall|c: ComponentId| !(new_table@.contains(c) && new_sparse@.contains(c)) by {}
        }
        let new_id = archetypes.get_id_or_insert(table_id, new_table, new_sparse);
        let ghost a1 = archetypes@;
        archetypes.insert_add_bundle(archetype_id, bid, new_id, status);
        proof {
            let a2 = archetypes@;
            assert(a1 == a0 || a1 == a0.push(a1[new_id.0 as int]));
            assert(extends(a0, a2)) by {
                assert forall|x: int| 0 <= x < a0.len() implies #[trigger] a2[x] == (ArchetypeView { edges: a2[x].edges, ..a0[x] }) by {
                    assert(a1[x] == a0[x]);
                }
            }
            if !added_table {
                assert(t1.subrange(0, t0.len() as int) =~= t0);
            }
            assert(a2[a] == (ArchetypeView { edges: a2[a].edges, ..a0[a] }));
            assert(a2[new_id.0 as int] == (ArchetypeView { edges: a2[new_id.0 as int].edges, ..a1[new_id.0 as int] })) by {
                if new_id.0 != a {
                    assert(a2[new_id.0 as int] == a1[new_id.0 as int]);
                }
            }
            assert forall|x: int, b: int| 0 <= x < a2.len() && (#[trigger] lookup(a2[x].edges, b)) is Some implies {
                let e = lookup(a2[x].edges, b)->Some_0;
                &&& 0 <= b < bundles@.len()
                &&& e.archetype_id.0 < a2.len()
                &&& reaches(a2, cs, x, e.archetype_id.0 as int, bundles@[b])
                &&& e.bundle_status@ == statuses(a2[x], bundles@[b])
            } by {
                if x == a && b == bid {
                    assert(statuses(a2[x], ids) =~= statuses(cur, ids));
                } else if x < a0.len() {
                    assert(lookup(a2[x].edges, b) == lookup(a0[x].edges, b));
                    lemma_edges_extend(a0, a2, cs, bundles@, x, b);
                } else {
                    assert(a2[x] == a1[x]);
                }
            }
            assert forall|x: int, c: ComponentId| 0 <= x < a2.len() && #[trigger] a2[x].table_components.contains(c)
                implies c.0 < cs.len() && cs[c.0 as int].storage_type == StorageType::Table by {
                if x < a0.len() {
                    assert(a2[x].table_components == a0[x].table_components);
                } else {
                    assert(a2[x].table_components == new_table@);
                }
            }
            assert forall|x: int, c: ComponentId| 0 <= x < a2.len() && #[trigger] a2[x].sparse_set_components.contains(c)
                implies c.0 < cs.len() && cs[c.0 as int].storage_type == StorageType::SparseSet by {
                if x < a0.len() {
                    assert(a2[x].sparse_set_components == a0[x].sparse_set_components);
                } else {
                    assert(a2[x].sparse_set_components == new_sparse@);
                }
            }
            assert forall|x: int| 0 <= x < a2.len() implies (#[trigger] a2[x]).table_id.0 < t1.len()
                && t1[a2[x].table_id.0 as int].ids == a2[x].table_components by {
                if x < a0.len() {
                    assert(a2[x].table_id == a0[x].table_id);
                    assert(t1[a0[x].table_id.0 as int] == t0[a0[x].table_id.0 as int]) by {
                        assert(t1.subrange(0, t0.len() as int)[a0[x].table_id.0 as int] == t1[a0[x].table_id.0 as int]);
                    }
                } else {
                    assert(a2[x].table_id == table_id);
                }
            }
            assert forall|x: int| a0.len() <= x < a2.len() implies (#[trigger] a2[x]).entities.len() == 0 by {
                assert(a2[x] == a1[x]);
            }
        }
        new_id
    }
}

/// The repeated occurrences are drawn from the list.
proof fn lemma_duplicates_registered(ids: Seq<ComponentId>, n: nat)
    requires
        forall|k: int| 0 <= k < ids.len() ==> (#[trigger] ids[k]).0 < n,
    ensures
        forall|k: int| 0 <= k < duplicates_of(ids).len() ==> (#[trigger] duplicates_of(ids)[k]).0 < n,
    decreases ids.len(),
{
    if ids.len() > 0 {
        lemma_duplicates_registered(ids.drop_last(), n);
        assert(ids.last() == ids[ids.len() - 1]);
        let prev = duplicates_of(ids.drop_last());
        assert forall|k: int| 0 <= k < duplicates_of(ids).len() implies (#[trigger] duplicates_of(ids)[k]).0 < n by {
            if k < prev.len() {
                assert(duplicates_of(ids)[k] == prev[k]);
            }
        }
    }
}

} // verus!
