use vstd::prelude::*;

use crate::blob_vec::swap_remove_seq;
use crate::component::ComponentId;
use crate::entity::{Entity, EntityLocation};
use crate::sparse_set::{lookup, SparseArray};
use crate::table::{same_ids, strictly_sorted, TableId, TableRow};

verus! {

/// The position of an entity inside an archetype's membership list.
#[derive(Clone, Copy, Debug, PartialEq, Eq, Structural)]
pub struct ArchetypeRow(pub u32);

impl ArchetypeRow {
    pub fn new(index: usize) -> (r: ArchetypeRow)
        requires
            index <= u32::MAX,
        ensures
            r.0 == index,
    {
        ArchetypeRow(index as u32)
    }

    pub fn invalid() -> (r: ArchetypeRow)
        ensures
            r.0 == u32::MAX,
    {
        ArchetypeRow(u32::MAX)
    }

    pub fn index(self) -> (r: usize)
        ensures
            r == self.0,
    {
        self.0 as usize
    }
}

/// A dense archetype identifier; zero names the archetype without components.
#[derive(Clone, Copy, Debug, PartialEq, Eq, Structural, Hash, PartialOrd, Ord)]
pub struct ArchetypeId(pub u32);

/// The identifier that no archetype ever carries.
pub const INVALID_ARCHETYPE: u32 = u32::MAX;

impl ArchetypeId {
    pub fn new(index: usize) -> (r: ArchetypeId)
        requires
            index <= u32::MAX,
        ensures
            r.0 == index,
    {
        ArchetypeId(index as u32)
    }

    /// The archetype without components.
    pub fn empty() -> (r: ArchetypeId)
        ensures
            r.0 == 0,
    {
        ArchetypeId(0)
    }

    pub fn invalid() -> (r: ArchetypeId)
        ensures
            r.0 == INVALID_ARCHETYPE,
    {
        ArchetypeId(INVALID_ARCHETYPE)
    }

    pub fn index(self) -> (r: usize)
        ensures
            r == self.0,
    {
        self.0 as usize
    }
}

/// The identifier of one (archetype, component) pair, by which a scheduler
/// tells accesses apart.
#[derive(Clone, Copy, Debug, PartialEq, Eq, Structural, Hash)]
pub struct ArchetypeComponentId(pub usize);

impl ArchetypeComponentId {
    pub fn new(index: usize) -> (r: ArchetypeComponentId)
        ensures
            r.0 == index,
    {
        ArchetypeComponentId(index)
    }

    pub fn index(&self) -> (r: usize)
        ensures
            r == self.0,
    {
        self.0
    }
}

/// The number of archetypes at some moment: the archetypes made after it
/// are the ones with ids at or above it.
#[derive(Clone, Copy, Debug, PartialEq, Eq, Structural)]
pub struct ArchetypeGeneration(pub ArchetypeId);

impl ArchetypeGeneration {
    /// The generation before any archetype.
    pub fn initial() -> (r: ArchetypeGeneration)
        ensures
            r.0.0 == 0,
    {
        ArchetypeGeneration(ArchetypeId(0))
    }
}

/// A member of an archetype: the entity and its row in the archetype's table.
#[derive(Clone, Copy, Debug, PartialEq, Eq, Structural)]
pub struct ArchetypeEntity {
    pub entity: Entity,
    pub table_row: TableRow,
}

impl ArchetypeEntity {
    pub fn id(&self) -> (r: Entity)
        ensures
            r == self.entity,
    {
        self.entity
    }

    pub fn table_row(&self) -> (r: TableRow)
        ensures
            r == self.table_row,
    {
        self.table_row
    }
}

/// Whether a bundle's component was new to the archetype or overwrote a
/// value it already had.
#[derive(Clone, Copy, Debug, PartialEq, Eq, Structural)]
pub enum ComponentStatus {
    Added,
    Mutated,
}

/// A cached transition: the archetype reached by adding a bundle, and the
/// status of each of the bundle's components.
#[derive(Clone, Debug)]
pub struct AddBundle {
    pub archetype_id: ArchetypeId,
    pub bundle_status: Vec<ComponentStatus>,
}

/// The cache of an archetype's transitions, indexed by bundle id.
#[derive(Debug)]
pub struct Edges {
    add_bundle: SparseArray<AddBundle>,
}

impl View for Edges {
    type V = Seq<Option<AddBundle>>;

    closed spec fn view(&self) -> Seq<Option<AddBundle>> {
        self.add_bundle@
    }
}

impl Edges {
    pub fn new() -> (r: Edges)
        ensures
            forall|b: int| lookup(r@, b) is None,
    {
        let r = Edges { add_bundle: SparseArray::new() };
        proof {
            assert forall|b: int| lookup(r@, b) is None by {
                assert(r.add_bundle.spec_get(b) is None);
            }
        }
        r
    }

    /// The archetype reached by adding a bundle, if the transition is cached.
    pub fn get_add_bundle(&self, bundle_id: usize) -> (r: Option<ArchetypeId>)
        ensures
            r is Some <==> lookup(self@, bundle_id as int) is Some,
            r matches Some(a) ==> a == lookup(self@, bundle_id as int)->Some_0.archetype_id,
    {
        match self.add_bundle.get(bundle_id) {
            Some(edge) => Some(edge.archetype_id),
            None => None,
        }
    }

    /// The cached transition of a bundle.
    pub fn get_add_bundle_internal(&self, bundle_id: usize) -> (r: Option<&AddBundle>)
        ensures
            r is Some <==> lookup(self@, bundle_id as int) is Some,
            r matches Some(e) ==> *e == lookup(self@, bundle_id as int)->Some_0,
    {
        self.add_bundle.get(bundle_id)
    }

    /// Caches a transition.
    pub fn insert_add_bundle(&mut self, bundle_id: usize, archetype_id: ArchetypeId, bundle_status: Vec<ComponentStatus>)
        requires
            bundle_id < usize::MAX,
        ensures
            forall|b: int| #[trigger] lookup(final(self)@, b) == if b == bundle_id {
                Some(AddBundle { archetype_id, bundle_status })
            } else {
                lookup(old(self)@, b)
            },
    {
        self.add_bundle.insert(bundle_id, AddBundle { archetype_id, bundle_status });
        proof {
            assert forall|b: int| #[trigger] lookup(self@, b) == if b == bundle_id {
                Some(AddBundle { archetype_id, bundle_status })
            } else {
                lookup(old(self)@, b)
            } by {
                assert(self.add_bundle.spec_get(b) == lookup(self@, b));
                assert(old(self).add_bundle.spec_get(b) == lookup(old(self)@, b));
            }
        }
    }
}

/// The abstract content of an archetype.
pub struct ArchetypeView {
    pub id: ArchetypeId,
    pub table_id: TableId,
    pub table_components: Seq<ComponentId>,
    pub sparse_set_components: Seq<ComponentId>,
    pub component_ids: Seq<ArchetypeComponentId>,
    pub entities: Seq<ArchetypeEntity>,
    pub edges: Seq<Option<AddBundle>>,
}

impl ArchetypeView {
    pub open spec fn contains(self, id: ComponentId) -> bool {
        self.table_components.contains(id) || self.sparse_set_components.contains(id)
    }

    pub open spec fn wf(self) -> bool {
        &&& strictly_sorted(self.table_components)
        &&& strictly_sorted(self.sparse_set_components)
        &&& forall|c: ComponentId| !(self.table_components.contains(c) && self.sparse_set_components.contains(c))
        &&& self.component_ids.len() == self.table_components.len() + self.sparse_set_components.len()
        &&& self.entities.len() <= u32::MAX
    }

    /// The archetype with a new member at its end.
    pub open spec fn allocate(self, entity: Entity, table_row: TableRow) -> ArchetypeView {
        ArchetypeView { entities: self.entities.push(ArchetypeEntity { entity, table_row }), ..self }
    }

    /// The archetype with one more cached transition.
    pub open spec fn cache_edge(self, bundle_id: usize, edge: AddBundle) -> ArchetypeView {
        ArchetypeView {
            edges: if bundle_id < self.edges.len() {
                self.edges.update(bundle_id as int, Some(edge))
            } else {
                self.edges
            },
            ..self
        }
    }
}

/// The set of entities that share one set of components.
#[derive(Debug)]
pub struct Archetype {
    id: ArchetypeId,
    table_id: TableId,
    edges: Edges,
    entities: Vec<ArchetypeEntity>,
    table_components: Vec<ComponentId>,
    sparse_set_components: Vec<ComponentId>,
    component_ids: Vec<ArchetypeComponentId>,
}

impl View for Archetype {
    type V = ArchetypeView;

    closed spec fn view(&self) -> ArchetypeView {
        ArchetypeView {
            id: self.id,
            table_id: self.table_id,
            table_components: self.table_components@,
            sparse_set_components: self.sparse_set_components@,
            component_ids: self.component_ids@,
            entities: self.entities@,
            edges: self.edges@,
        }
    }
}

impl Archetype {
    /// An archetype without members; its (archetype, component) ids are
    /// consecutive from `first_component_id`, table components first.
    pub fn new(
        id: ArchetypeId,
        table_id: TableId,
        table_components: Vec<ComponentId>,
        sparse_set_components: Vec<ComponentId>,
        first_component_id: usize,
    ) -> (r: Archetype)
        requires
            strictly_sorted(table_components@),
            strictly_sorted(sparse_set_components@),
            forall|c: ComponentId| !(table_components@.contains(c) && sparse_set_components@.contains(c)),
            first_component_id + table_components@.len() + sparse_set_components@.len() <= usize::MAX,
        ensures
            r@.wf(),
            r@.id == id,
            r@.table_id == table_id,
            r@.table_components == table_components@,
            r@.sparse_set_components == sparse_set_components@,
            r@.entities.len() == 0,
            forall|b: int| lookup(r@.edges, b) is None,
            forall|k: int| 0 <= k < r@.component_ids.len() ==> (#[trigger] r@.component_ids[k]).0 == first_component_id + k,
    {
        let total = table_components.len() + sparse_set_components.len();
        let mut component_ids: Vec<ArchetypeComponentId> = Vec::new();
        let mut k: usize = 0;
        while k < total
            invariant
                k <= total,
                first_component_id + total <= usize::MAX,
                component_ids.len() == k,
                forall|j: int| 0 <= j < k ==> (#[trigger] component_ids@[j]).0 == first_component_id + j,
            decreases total - k,
        {
            component_ids.push(ArchetypeComponentId(first_component_id + k));
            k = k + 1;
        }
        Archetype {
            id,
            table_id,
            edges: Edges::new(),
            entities: Vec::new(),
            table_components,
            sparse_set_components,
            component_ids,
        }
    }

    pub fn id(&self) -> (r: ArchetypeId)
        ensures
            r == self@.id,
    {
        self.id
    }

    pub fn table_id(&self) -> (r: TableId)
        ensures
            r == self@.table_id,
    {
        self.table_id
    }

    pub fn entities(&self) -> (r: &Vec<ArchetypeEntity>)
        ensures
            r@ == self@.entities,
    {
        &self.entities
    }

    pub fn len(&self) -> (r: usize)
        ensures
            r == self@.entities.len(),
    {
        self.entities.len()
    }

    pub fn is_empty(&self) -> (r: bool)
        ensures
            r == (self@.entities.len() == 0),
    {
        self.entities.len() == 0
    }

    pub fn edges(&self) -> (r: &Edges)
        ensures
            r@ == self@.edges,
    {
        &self.edges
    }

    pub fn table_components(&self) -> (r: &Vec<ComponentId>)
        ensures
            r@ == self@.table_components,
    {
        &self.table_components
    }

    pub fn sparse_set_components(&self) -> (r: &Vec<ComponentId>)
        ensures
            r@ == self@.sparse_set_components,
    {
        &self.sparse_set_components
    }

    pub fn component_count(&self) -> (r: usize)
        requires
            self@.wf(),
        ensures
            r == self@.table_components.len() + self@.sparse_set_components.len(),
    {
        self.component_ids.len()
    }

    /// Whether the archetype's entities have a component.
    pub fn contains(&self, component_id: ComponentId) -> (r: bool)
        ensures
            r == self@.contains(component_id),
    {
        contains_id(&self.table_components, component_id) || contains_id(&self.sparse_set_components, component_id)
    }
}

impl Archetype {
    /// Adds a member at the end and returns its location.
    pub fn allocate(&mut self, entity: Entity, table_row: TableRow) -> (r: EntityLocation)
        requires
            old(self)@.wf(),
            old(self)@.entities.len() < u32::MAX,
        ensures
            final(self)@ == old(self)@.allocate(entity, table_row),
            final(self)@.wf(),
            r == (EntityLocation {
                archetype_id: old(self)@.id,
                archetype_row: ArchetypeRow(old(self)@.entities.len() as u32),
                table_id: old(self)@.table_id,
                table_row,
            }),
    {
        let row = self.entities.len();
        self.entities.push(ArchetypeEntity { entity, table_row });
        EntityLocation {
            archetype_id: self.id,
            archetype_row: ArchetypeRow(row as u32),
            table_id: self.table_id,
            table_row,
        }
    }

    /// Removes the member at `row`; the last member takes its place and is
    /// returned, if it is another one.
    pub fn swap_remove(&mut self, row: ArchetypeRow) -> (r: Option<ArchetypeEntity>)
        requires
            old(self)@.wf(),
            row.0 < old(self)@.entities.len(),
        ensures
            final(self)@ == (ArchetypeView { entities: swap_remove_seq(old(self)@.entities, row.0 as int), ..old(self)@ }),
            final(self)@.wf(),
            r is Some <==> row.0 < old(self)@.entities.len() - 1,
            r matches Some(m) ==> m == old(self)@.entities.last(),
    {
        let last = self.entities.len() - 1;
        self.entities.swap_remove(row.index());
        if row.index() < last {
            Some(self.entities[row.index()])
        } else {
            None
        }
    }

    /// Records the table row of the member at `row`.
    pub fn set_entity_table_row(&mut self, row: ArchetypeRow, table_row: TableRow)
        requires
            old(self)@.wf(),
            row.0 < old(self)@.entities.len(),
        ensures
            final(self)@ == (ArchetypeView {
                entities: old(self)@.entities.update(
                    row.0 as int,
                    ArchetypeEntity { entity: old(self)@.entities[row.0 as int].entity, table_row },
                ),
                ..old(self)@
            }),
            final(self)@.wf(),
    {
        let e = self.entities[row.index()].entity;
        self.entities.set(row.index(), ArchetypeEntity { entity: e, table_row });
    }

    /// Caches the transition for adding a bundle.
    pub fn insert_add_bundle(&mut self, bundle_id: usize, archetype_id: ArchetypeId, bundle_status: Vec<ComponentStatus>)
        requires
            bundle_id < usize::MAX,
        ensures
            final(self)@ == (ArchetypeView { edges: final(self)@.edges, ..old(self)@ }),
            forall|b: int| #[trigger] lookup(final(self)@.edges, b) == if b == bundle_id {
                Some(AddBundle { archetype_id, bundle_status })
            } else {
                lookup(old(self)@.edges, b)
            },
    {
        self.edges.insert_add_bundle(bundle_id, archetype_id, bundle_status);
    }
}

/// The invariant of the archetype registry: ids are positions, archetype
/// zero has no components and uses table zero, and no two archetypes have
/// the same components.
pub open spec fn archetypes_wf(s: Seq<ArchetypeView>) -> bool {
    &&& 1 <= s.len() < u32::MAX
    &&& s[0].table_components.len() == 0
    &&& s[0].sparse_set_components.len() == 0
    &&& s[0].table_id == TableId(0)
    &&& forall|a: int| 0 <= a < s.len() ==> (#[trigger] s[a]).wf() && s[a].id.0 == a
    &&& forall|a: int, b: int|
        0 <= a < s.len() && 0 <= b < s.len() && a != b ==> !(#[trigger] s[a].table_components == #[trigger] s[b].table_components
            && s[a].sparse_set_components == s[b].sparse_set_components)
}

/// The registry of archetypes.
#[derive(Debug)]
pub struct Archetypes {
    archetypes: Vec<Archetype>,
    archetype_component_count: usize,
}

impl View for Archetypes {
    type V = Seq<ArchetypeView>;

    closed spec fn view(&self) -> Seq<ArchetypeView> {
        self.archetypes@.map_values(|a: Archetype| a@)
    }
}

impl Archetypes {
    pub closed spec fn wf(&self) -> bool {
        archetypes_wf(self@)
    }

    pub proof fn lemma_wf(&self)
        requires
            self.wf(),
        ensures
            archetypes_wf(self@),
    {
    }

    /// The number of (archetype, component) ids handed out so far.
    pub closed spec fn spec_component_count(&self) -> nat {
        self.archetype_component_count as nat
    }

    /// A registry that holds the archetype without components, on table zero.
    pub fn new() -> (r: Archetypes)
        ensures
            r.wf(),
            r@.len() == 1,
            r@[0].entities.len() == 0,
            forall|b: int| lookup(r@[0].edges, b) is None,
            r.spec_component_count() == 0,
    {
        let empty = Archetype::new(ArchetypeId(0), TableId(0), Vec::new(), Vec::new(), 0);
        let mut archetypes: Vec<Archetype> = Vec::new();
        archetypes.push(empty);
        let r = Archetypes { archetypes, archetype_component_count: 0 };
        proof {
            assert(r@[0] == empty@);
        }
        r
    }

    pub fn len(&self) -> (r: usize)
        ensures
            r == self@.len(),
    {
        self.archetypes.len()
    }

    pub fn get(&self, id: ArchetypeId) -> (r: Option<&Archetype>)
        ensures
            r is Some <==> id.0 < self@.len(),
            r matches Some(a) ==> a@ == self@[id.0 as int],
    {
        if id.index() < self.archetypes.len() {
            Some(&self.archetypes[id.index()])
        } else {
            None
        }
    }

    /// The archetype at a valid id.
    pub fn at(&self, id: ArchetypeId) -> (r: &Archetype)
        requires
            id.0 < self@.len(),
        ensures
            r@ == self@[id.0 as int],
    {
        &self.archetypes[id.index()]
    }

    /// The generation that the next archetype will start.
    pub fn generation(&self) -> (r: ArchetypeGeneration)
        requires
            self.wf(),
        ensures
            r.0.0 == self@.len(),
    {
        ArchetypeGeneration(ArchetypeId(self.archetypes.len() as u32))
    }

    /// The archetype of the given sorted table and sparse components, made
    /// on first request.
    pub fn get_id_or_insert(
        &mut self,
        table_id: TableId,
        table_components: Vec<ComponentId>,
        sparse_set_components: Vec<ComponentId>,
    ) -> (r: ArchetypeId)
        requires
            old(self).wf(),
            strictly_sorted(table_components@),
            strictly_sorted(sparse_set_components@),
            forall|c: ComponentId| !(table_components@.contains(c) && sparse_set_components@.contains(c)),
            old(self)@.len() < u32::MAX - 1,
            old(self).spec_component_count() + table_components@.len() + sparse_set_components@.len() <= usize::MAX,
        ensures
            final(self).wf(),
            r.0 < final(self)@.len(),
            final(self)@[r.0 as int].table_components == table_components@,
            final(self)@[r.0 as int].sparse_set_components == sparse_set_components@,
            final(self).spec_component_count() <= old(self).spec_component_count() + table_components@.len() + sparse_set_components@.len(),
            r.0 < old(self)@.len() ==> final(self)@ == old(self)@,
            r.0 >= old(self)@.len() ==> {
                &&& r.0 == old(self)@.len()
                &&& final(self)@ == old(self)@.push(final(self)@[r.0 as int])
                &&& final(self)@[r.0 as int].table_id == table_id
                &&& final(self)@[r.0 as int].entities.len() == 0
                &&& forall|b: int| lookup(final(self)@[r.0 as int].edges, b) is None
                &&& forall|a: int| 0 <= a < old(self)@.len() ==> !(old(self)@[a].table_components == table_components@
                    && old(self)@[a].sparse_set_components == sparse_set_components@)
            },
    {
        let mut a: usize = 0;
        while a < self.archetypes.len()
            invariant
                self.wf(),
                a <= self.archetypes.len(),
                forall|k: int| 0 <= k < a ==> !(self@[k].table_components == table_components@
                    && self@[k].sparse_set_components == sparse_set_components@),
            decreases self.archetypes.len() - a,
        {
            if same_ids(&self.archetypes[a].table_components, &table_components)
                && same_ids(&self.archetypes[a].sparse_set_components, &sparse_set_components) {
                proof {
                    assert(self@[a as int] == self.archetypes@[a as int]@);
                }
                return ArchetypeId(a as u32);
            }
            proof {
                assert(self@[a as int] == self.archetypes@[a as int]@);
            }
            a = a + 1;
        }
        let id = ArchetypeId(self.archetypes.len() as u32);
        let start = self.archetype_component_count;
        let added = table_components.len() + sparse_set_components.len();
        let archetype = Archetype::new(id, table_id, table_components, sparse_set_components, start);
        self.archetype_component_count = start + added;
        self.archetypes.push(archetype);
        proof {
            let s = self@;
            assert(s =~= old(self)@.push(archetype@));
            assert forall|x: int, y: int|
                0 <= x < s.len() && 0 <= y < s.len() && x != y implies !(#[trigger] s[x].table_components == #[trigger] s[y].table_components
                    && s[x].sparse_set_components == s[y].sparse_set_components) by {
                if x < old(self)@.len() && y < old(self)@.len() {
                    assert(s[x] == old(self)@[x]);
                    assert(s[y] == old(self)@[y]);
                } else if x == old(self)@.len() {
                    assert(s[y] == old(self)@[y]);
                } else {
                    assert(s[x] == old(self)@[x]);
                }
            }
            assert(s[0] == old(self)@[0]);
        }
        id
    }

    /// Adds a member at the end of an archetype.
    pub fn allocate(&mut self, id: ArchetypeId, entity: Entity, table_row: TableRow) -> (r: EntityLocation)
        requires
            old(self).wf(),
            id.0 < old(self)@.len(),
            old(self)@[id.0 as int].entities.len() < u32::MAX,
        ensures
            final(self).wf(),
            final(self).spec_component_count() == old(self).spec_component_count(),
            final(self)@ == old(self)@.update(id.0 as int, old(self)@[id.0 as int].allocate(entity, table_row)),
            r == (EntityLocation {
                archetype_id: id,
                archetype_row: ArchetypeRow(old(self)@[id.0 as int].entities.len() as u32),
                table_id: old(self)@[id.0 as int].table_id,
                table_row,
            }),
    {
        proof {
            assert(old(self)@[id.0 as int] == old(self).archetypes@[id.0 as int]@);
        }
        let r = self.archetypes[id.index()].allocate(entity, table_row);
        proof {
            self.lemma_update(*old(self), id.0 as int);
        }
        r
    }

    /// Removes the member at `row` of an archetype; the last member takes
    /// its place and is returned, if it is another one.
    pub fn swap_remove(&mut self, id: ArchetypeId, row: ArchetypeRow) -> (r: Option<ArchetypeEntity>)
        requires
            old(self).wf(),
            id.0 < old(self)@.len(),
            row.0 < old(self)@[id.0 as int].entities.len(),
        ensures
            final(self).wf(),
            final(self).spec_component_count() == old(self).spec_component_count(),
            final(self)@ == old(self)@.update(
                id.0 as int,
                ArchetypeView { entities: swap_remove_seq(old(self)@[id.0 as int].entities, row.0 as int), ..old(self)@[id.0 as int] },
            ),
            r is Some <==> row.0 < old(self)@[id.0 as int].entities.len() - 1,
            r matches Some(m) ==> m == old(self)@[id.0 as int].entities.last(),
    {
        proof {
            assert(old(self)@[id.0 as int] == old(self).archetypes@[id.0 as int]@);
        }
        let r = self.archetypes[id.index()].swap_remove(row);
        proof {
            self.lemma_update(*old(self), id.0 as int);
        }
        r
    }

    /// Records the table row of a member of an archetype.
    pub fn set_entity_table_row(&mut self, id: ArchetypeId, row: ArchetypeRow, table_row: TableRow)
        requires
            old(self).wf(),
            id.0 < old(self)@.len(),
            row.0 < old(self)@[id.0 as int].entities.len(),
        ensures
            final(self).wf(),
            final(self).spec_component_count() == old(self).spec_component_count(),
            final(self)@ == old(self)@.update(
                id.0 as int,
                ArchetypeView {
                    entities: old(self)@[id.0 as int].entities.update(
                        row.0 as int,
                        ArchetypeEntity { entity: old(self)@[id.0 as int].entities[row.0 as int].entity, table_row },
                    ),
                    ..old(self)@[id.0 as int]
                },
            ),
    {
        proof {
            assert(old(self)@[id.0 as int] == old(self).archetypes@[id.0 as int]@);
        }
        self.archetypes[id.index()].set_entity_table_row(row, table_row);
        proof {
            self.lemma_update(*old(self), id.0 as int);
        }
    }

    /// Caches a transition of an archetype.
    pub fn insert_add_bundle(&mut self, id: ArchetypeId, bundle_id: usize, archetype_id: ArchetypeId, bundle_status: Vec<ComponentStatus>)
        requires
            old(self).wf(),
            id.0 < old(self)@.len(),
            bundle_id < usize::MAX,
        ensures
            final(self).wf(),
            final(self).spec_component_count() == old(self).spec_component_count(),
            final(self)@.len() == old(self)@.len(),
            forall|a: int| 0 <= a < old(self)@.len() && a != id.0 ==> final(self)@[a] == old(self)@[a],
            final(self)@[id.0 as int] == (ArchetypeView { edges: final(self)@[id.0 as int].edges, ..old(self)@[id.0 as int] }),
            forall|b: int| #[trigger] lookup(final(self)@[id.0 as int].edges, b) == if b == bundle_id {
                Some(AddBundle { archetype_id, bundle_status })
            } else {
                lookup(old(self)@[id.0 as int].edges, b)
            },
    {
        proof {
            assert(old(self)@[id.0 as int] == old(self).archetypes@[id.0 as int]@);
        }
        self.archetypes[id.index()].insert_add_bundle(bundle_id, archetype_id, bundle_status);
        proof {
            self.lemma_update(*old(self), id.0 as int);
        }
    }

    /// After one archetype changed, keeping its components and id, the
    /// registry is still well formed.
    proof fn lemma_update(&self, prev: Archetypes, a: int)
        requires
            prev.wf(),
            0 <= a < prev.archetypes.len(),
            self.archetypes.len() == prev.archetypes.len(),
            self.archetype_component_count == prev.archetype_component_count,
            self.archetypes@[a]@.wf(),
            self.archetypes@[a]@.id == prev.archetypes@[a]@.id,
            self.archetypes@[a]@.table_id == prev.archetypes@[a]@.table_id,
            self.archetypes@[a]@.table_components == prev.archetypes@[a]@.table_components,
            self.archetypes@[a]@.sparse_set_components == prev.archetypes@[a]@.sparse_set_components,
            forall|k: int| 0 <= k < self.archetypes.len() && k != a ==> self.archetypes@[k] == prev.archetypes@[k],
        ensures
            self.wf(),
            self@ == prev@.update(a, self.archetypes@[a]@),
    {
        assert(self@ =~= prev@.update(a, self.archetypes@[a]@));
        assert(prev@[a] == prev.archetypes@[a]@);
        let s = self@;
        assert forall|x: int, y: int|
            0 <= x < s.len() && 0 <= y < s.len() && x != y implies !(#[trigger] s[x].table_components == #[trigger] s[y].table_components
                && s[x].sparse_set_components == s[y].sparse_set_components) by {
            assert(!(prev@[x].table_components == prev@[y].table_components
                && prev@[x].sparse_set_components == prev@[y].sparse_set_components));
        }
    }
}

/// Whether a list of ids holds `id`.
pub fn contains_id(ids: &Vec<ComponentId>, id: ComponentId) -> (r: bool)
    ensures
        r == ids@.contains(id),
{
    let mut i: usize = 0;
    while i < ids.len()
        invariant
            i <= ids.len(),
            forall|k: int| 0 <= k < i ==> ids@[k] != id,
        decreases ids.len() - i,
    {
        if ids[i] == id {
            return true;
        }
        i = i + 1;
    }
    false
}

} // verus!
