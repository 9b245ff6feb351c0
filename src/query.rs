use vstd::prelude::*;

use fixedbitset::FixedBitSet;

use crate::archetype::{Archetype, ArchetypeGeneration, ArchetypeId, ArchetypeView};
use crate::component::{ComponentId, ComponentRecord, StorageType};
use crate::entity::Entity;
use crate::blob_vec::copy_bytes;
use crate::table::{TableId, TableView};
use crate::world::{World, WorldId, WorldView};

verus! {

#[verifier::external_type_specification]
#[verifier::external_body]
pub struct ExFixedBitSet(FixedBitSet);

/// The bits set in the storage blocks of a `FixedBitSet`, including any
/// that lie past its length.
pub uninterp spec fn raw_bits_of(s: FixedBitSet) -> Set<usize>;

/// The length of a `FixedBitSet`, in bits.
pub uninterp spec fn len_of(s: FixedBitSet) -> usize;

/// Relies on fixedbitset's `FixedBitSet::new`: no storage and length zero.
pub assume_specification[ FixedBitSet::new ]() -> (r: FixedBitSet)
    ensures
        raw_bits_of(r) == Set::<usize>::empty(),
        len_of(r) == 0,
;

/// Relies on fixedbitset's `FixedBitSet::contains`: whether the bit is set;
/// bits past the length are clear.
pub assume_specification[ FixedBitSet::contains ](s: &FixedBitSet, bit: usize) -> (r: bool)
    ensures
        r == (bit < len_of(*s) && raw_bits_of(*s).contains(bit)),
;

/// Relies on fixedbitset's `FixedBitSet::grow_and_insert`: `grow(bits + 1)`
/// raises the length to at least `bits + 1`, keeping the existing blocks and
/// filling new ones with zeros, then the bit is set.
pub assume_specification[ FixedBitSet::grow_and_insert ](s: &mut FixedBitSet, bits: usize)
    requires
        bits < usize::MAX,
    ensures
        raw_bits_of(*final(s)) == raw_bits_of(*old(s)).insert(bits),
        len_of(*final(s)) == if bits + 1 > len_of(*old(s)) { (bits + 1) as usize } else { len_of(*old(s)) },
;

/// What a query asks for: the components it reads, and the components that
/// a matching entity must have or must lack.
pub struct QueryTerms {
    pub reads: Seq<ComponentId>,
    pub with: Seq<ComponentId>,
    pub without: Seq<ComponentId>,
}

/// An archetype matches the query: it has every read and required
/// component and none of the excluded ones.
pub open spec fn matches(a: ArchetypeView, q: QueryTerms) -> bool {
    &&& forall|k: int| 0 <= k < q.reads.len() ==> a.contains(#[trigger] q.reads[k])
    &&& forall|k: int| 0 <= k < q.with.len() ==> a.contains(#[trigger] q.with[k])
    &&& forall|k: int| 0 <= k < q.without.len() ==> !a.contains(#[trigger] q.without[k])
}

/// Every component of the query has table storage.
pub open spec fn all_table(components: Seq<ComponentRecord>, q: QueryTerms) -> bool {
    &&& forall|k: int| 0 <= k < q.reads.len() ==> components[(#[trigger] q.reads[k]).0 as int].storage_type == StorageType::Table
    &&& forall|k: int| 0 <= k < q.with.len() ==> components[(#[trigger] q.with[k]).0 as int].storage_type == StorageType::Table
    &&& forall|k: int| 0 <= k < q.without.len() ==> components[(#[trigger] q.without[k]).0 as int].storage_type == StorageType::Table
}

/// The matching archetypes among the first `n`, in id order.
pub open spec fn matched_archetype_ids(archetypes: Seq<ArchetypeView>, q: QueryTerms, n: nat) -> Seq<usize>
    decreases n,
{
    if n == 0 {
        Seq::empty()
    } else {
        let prev = matched_archetype_ids(archetypes, q, (n - 1) as nat);
        if matches(archetypes[n - 1], q) {
            prev.push((n - 1) as usize)
        } else {
            prev
        }
    }
}

/// The tables of the matching archetypes among the first `n`, each once,
/// in the order of their first matching archetype.
pub open spec fn matched_table_ids(archetypes: Seq<ArchetypeView>, q: QueryTerms, n: nat) -> Seq<usize>
    decreases n,
{
    if n == 0 {
        Seq::empty()
    } else {
        let prev = matched_table_ids(archetypes, q, (n - 1) as nat);
        let t = archetypes[n - 1].table_id.0 as usize;
        if matches(archetypes[n - 1], q) && !prev.contains(t) {
            prev.push(t)
        } else {
            prev
        }
    }
}

/// A matched table id is the table of a matching archetype.
pub proof fn lemma_matched_table_ids(archetypes: Seq<ArchetypeView>, q: QueryTerms, n: nat)
    requires
        n <= archetypes.len(),
    ensures
        forall|t: usize| matched_table_ids(archetypes, q, n).contains(t) <==> exists|a: int| 0 <= a < n && matches(archetypes[a], q) && archetypes[a].table_id.0 == t,
        matched_table_ids(archetypes, q, n).no_duplicates(),
    decreases n,
{
    if n > 0 {
        lemma_matched_table_ids(archetypes, q, (n - 1) as nat);
        let prev = matched_table_ids(archetypes, q, (n - 1) as nat);
        let cur = matched_table_ids(archetypes, q, n);
        assert forall|t: usize| cur.contains(t) <==> exists|a: int| 0 <= a < n && matches(archetypes[a], q) && archetypes[a].table_id.0 == t by {
            if cur.contains(t) {
                let k = choose|k: int| 0 <= k < cur.len() && cur[k] == t;
                if k < prev.len() {
                    assert(prev.contains(t));
                } else {
                    assert(matches(archetypes[n - 1], q) && archetypes[n - 1].table_id.0 == t);
                }
            }
            if exists|a: int| 0 <= a < n && matches(archetypes[a], q) && archetypes[a].table_id.0 == t {
                let a = choose|a: int| 0 <= a < n && matches(archetypes[a], q) && archetypes[a].table_id.0 == t;
                if a < n - 1 {
                    assert(prev.contains(t));
                    let k = choose|k: int| 0 <= k < prev.len() && prev[k] == t;
                    assert(cur[k] == t);
                } else if !prev.contains(t) {
                    assert(cur[cur.len() - 1] == t);
                } else {
                    let k = choose|k: int| 0 <= k < prev.len() && prev[k] == t;
                    assert(cur[k] == t);
                }
            }
        }
    }
}

/// The matched archetype ids are the matching archetypes, each once.
pub proof fn lemma_matched_archetype_ids(archetypes: Seq<ArchetypeView>, q: QueryTerms, n: nat)
    requires
        n <= archetypes.len(),
        n < u32::MAX,
    ensures
        forall|a: usize| matched_archetype_ids(archetypes, q, n).contains(a) <==> a < n && matches(archetypes[a as int], q),
        matched_archetype_ids(archetypes, q, n).no_duplicates(),
        forall|k: int| 0 <= k < matched_archetype_ids(archetypes, q, n).len() ==> (#[trigger] matched_archetype_ids(archetypes, q, n)[k]) < n,
    decreases n,
{
    if n > 0 {
        lemma_matched_archetype_ids(archetypes, q, (n - 1) as nat);
        let prev = matched_archetype_ids(archetypes, q, (n - 1) as nat);
        let cur = matched_archetype_ids(archetypes, q, n);
        assert forall|a: usize| cur.contains(a) <==> a < n && matches(archetypes[a as int], q) by {
            if cur.contains(a) {
                let k = choose|k: int| 0 <= k < cur.len() && cur[k] == a;
                if k < prev.len() {
                    assert(cur[k] == prev[k]);
                    assert(prev.contains(a));
                } else {
                    assert(matches(archetypes[n - 1], q));
                    assert(a == n - 1);
                }
            }
            if a < n && matches(archetypes[a as int], q) {
                if a < n - 1 {
                    assert(prev.contains(a));
                    let k = choose|k: int| 0 <= k < prev.len() && prev[k] == a;
                    assert(cur[k] == a);
                } else {
                    assert(cur[cur.len() - 1] == a);
                }
            }
        }
        assert forall|k: int| 0 <= k < cur.len() implies (#[trigger] cur[k]) < n by {
            if k < prev.len() {
                assert(cur[k] == prev[k]);
            }
        }
        assert forall|i: int, j: int| 0 <= i < cur.len() && 0 <= j < cur.len() && i != j implies cur[i] != cur[j] by {
            if i < prev.len() && j < prev.len() {
                assert(cur[i] == prev[i] && cur[j] == prev[j]);
            } else if i < prev.len() {
                assert(cur[i] == prev[i]);
                assert(prev[i] < n - 1);
            } else {
                assert(cur[j] == prev[j]);
                assert(prev[j] < n - 1);
            }
        }
    }
}

/// The entities that an iteration visits: every row of each storage, in
/// order; a storage is a table where `dense`, else an archetype.
pub open spec fn visited(w: WorldView, dense: bool, ids: Seq<usize>) -> Seq<Entity>
    decreases ids.len(),
{
    if ids.len() == 0 {
        Seq::empty()
    } else {
        let prev = visited(w, dense, ids.drop_last());
        let id = ids.last() as int;
        if dense {
            prev + w.tables[id].entities
        } else {
            prev + w.archetypes[id].entities.map_values(|ae: crate::archetype::ArchetypeEntity| ae.entity)
        }
    }
}

/// Walking tables visits exactly the live entities whose table is walked,
/// each once, where no table is walked twice.
pub proof fn lemma_visited_tables(w: WorldView, ids: Seq<usize>)
    requires
        w.linked(),
        forall|k: int| 0 <= k < ids.len() ==> (#[trigger] ids[k]) < w.tables.len(),
        ids.no_duplicates(),
    ensures
        forall|e: Entity| #[trigger] visited(w, true, ids).contains(e) <==> w.entities.contains(e) && ids.contains(w.loc(e).table_id.0 as usize),
        visited(w, true, ids).no_duplicates(),
    decreases ids.len(),
{
    if ids.len() > 0 {
        let init = ids.drop_last();
        let t = ids.last() as int;
        assert forall|k: int| 0 <= k < init.len() implies (#[trigger] init[k]) < w.tables.len() by {
            assert(init[k] == ids[k]);
        }
        assert(init.no_duplicates()) by {
            assert forall|i: int, j: int| 0 <= i < init.len() && 0 <= j < init.len() && i != j implies init[i] != init[j] by {
                assert(init[i] == ids[i] && init[j] == ids[j]);
            }
        }
        lemma_visited_tables(w, init);
        let prev = visited(w, true, init);
        let rows = w.tables[t].entities;
        let cur = visited(w, true, ids);
        assert(cur == prev + rows);
        assert forall|r: int| 0 <= r < rows.len() implies w.entities.contains(#[trigger] rows[r]) && w.loc(rows[r]).table_id.0 == t
            && w.loc(rows[r]).table_row.0 == r by {
            assert(w.tables[t].entities[r] == rows[r]);
        }
        assert(!init.contains(t as usize)) by {
            if init.contains(t as usize) {
                let k = choose|k: int| 0 <= k < init.len() && init[k] == t as usize;
                assert(ids[k] == ids[ids.len() - 1]);
            }
        }
        assert forall|e: Entity| #[trigger] cur.contains(e) <==> w.entities.contains(e) && ids.contains(w.loc(e).table_id.0 as usize) by {
            if cur.contains(e) {
                let k = choose|k: int| 0 <= k < cur.len() && cur[k] == e;
                if k < prev.len() {
                    assert(prev.contains(e));
                    let j = choose|j: int| 0 <= j < init.len() && init[j] == w.loc(e).table_id.0 as usize;
                    assert(ids[j] == init[j]);
                } else {
                    assert(rows[k - prev.len()] == e);
                    assert(ids[ids.len() - 1] == t as usize);
                }
            }
            if w.entities.contains(e) && ids.contains(w.loc(e).table_id.0 as usize) {
                let j = choose|j: int| 0 <= j < ids.len() && ids[j] == w.loc(e).table_id.0 as usize;
                assert(w.entity_linked(e));
                if j < ids.len() - 1 {
                    assert(init[j] == ids[j]);
                    assert(prev.contains(e));
                    let k = choose|k: int| 0 <= k < prev.len() && prev[k] == e;
                    assert(cur[k] == e);
                } else {
                    let r = w.loc(e).table_row.0 as int;
                    assert(rows[r] == e);
                    assert(cur[prev.len() + r] == e);
                }
            }
        }
        assert forall|i: int, j: int| 0 <= i < cur.len() && 0 <= j < cur.len() && i != j implies cur[i] != cur[j] by {
            if i >= prev.len() && j >= prev.len() {
                let ri = i - prev.len();
                let rj = j - prev.len();
                assert(w.loc(rows[ri]).table_row.0 == ri);
                assert(w.loc(rows[rj]).table_row.0 == rj);
            } else if i < prev.len() && j >= prev.len() {
                assert(prev.contains(cur[i]));
                let rj = j - prev.len();
                if cur[i] == cur[j] {
                    assert(w.loc(rows[rj]).table_id.0 == t);
                    assert(init.contains(w.loc(cur[i]).table_id.0 as usize));
                }
            } else if i >= prev.len() && j < prev.len() {
                assert(prev.contains(cur[j]));
                let ri = i - prev.len();
                if cur[i] == cur[j] {
                    assert(w.loc(rows[ri]).table_id.0 == t);
                    assert(init.contains(w.loc(cur[j]).table_id.0 as usize));
                }
            }
        }
    }
}

/// A query that reads one table-class component and filters nothing visits
/// every live entity that has that component, and each of them once.
pub proof fn lemma_single_read_visits_each_once(w: WorldView, c: ComponentId)
    requires
        w.registries_ok(),
        w.linked(),
        crate::archetype::archetypes_wf(w.archetypes),
        c.0 < w.components.len(),
        w.components[c.0 as int].storage_type == StorageType::Table,
    ensures
        ({
            let q = QueryTerms { reads: seq![c], with: Seq::empty(), without: Seq::empty() };
            let seen = visited(w, true, matched_table_ids(w.archetypes, q, w.archetypes.len()));
            &&& forall|e: Entity| #[trigger] seen.contains(e) <==> w.has_component(e, c)
            &&& seen.no_duplicates()
        }),
{
    let q = QueryTerms { reads: seq![c], with: Seq::empty(), without: Seq::empty() };
    let n = w.archetypes.len();
    let ids = matched_table_ids(w.archetypes, q, n);
    lemma_matched_table_ids(w.archetypes, q, n);
    assert forall|k: int| 0 <= k < ids.len() implies (#[trigger] ids[k]) < w.tables.len() by {
        assert(ids.contains(ids[k]));
        let a = choose|a: int| 0 <= a < n && matches(w.archetypes[a], q) && w.archetypes[a].table_id.0 == ids[k];
        assert(w.archetypes[a].table_id.0 < w.tables.len());
    }
    lemma_visited_tables(w, ids);
    let seen = visited(w, true, ids);
    assert forall|e: Entity| #[trigger] seen.contains(e) <==> w.has_component(e, c) by {
        if seen.contains(e) {
            let t = w.loc(e).table_id.0 as usize;
            assert(ids.contains(t));
            let a = choose|a: int| 0 <= a < n && matches(w.archetypes[a], q) && w.archetypes[a].table_id.0 == t;
            assert(w.archetypes[a].contains(q.reads[0]));
            assert(w.archetypes[a].table_components.contains(c)) by {
                if !w.archetypes[a].table_components.contains(c) {
                    assert(w.archetypes[a].sparse_set_components.contains(c));
                }
            }
            assert(w.entity_linked(e));
            let ae = w.loc(e).archetype_id.0 as int;
            assert(w.archetypes[ae].table_components == w.tables[t as int].ids);
            assert(w.archetypes[a].table_components == w.tables[t as int].ids);
        }
        if w.has_component(e, c) {
            assert(w.entity_linked(e));
            let ae = w.loc(e).archetype_id.0 as int;
            assert(matches(w.archetypes[ae], q)) by {
                assert forall|k: int| 0 <= k < q.reads.len() implies w.archetypes[ae].contains(#[trigger] q.reads[k]) by {
                    assert(k == 0);
                }
            }
            assert(ids.contains(w.loc(e).table_id.0 as usize));
        }
    }
}

/// One item of an iteration: the entity and the values of the components
/// that the query reads, in the query's order.
#[derive(Debug)]
pub struct QueryItem {
    pub entity: Entity,
    pub values: Vec<Vec<u8>>,
}

/// A query compiled against a world: the archetypes and tables that match
/// it, as far as the archetypes of the world have been examined.
#[derive(Debug)]
pub struct QueryState {
    world_id: WorldId,
    archetype_generation: ArchetypeGeneration,
    matched_tables: FixedBitSet,
    matched_archetypes: FixedBitSet,
    matched_storage_ids: Vec<usize>,
    reads: Vec<ComponentId>,
    with: Vec<ComponentId>,
    without: Vec<ComponentId>,
    is_dense: bool,
}

impl QueryState {
    /// The state is good for iterating `w`: it belongs to a world whose
    /// archetypes it agrees with, and it knows which storages to walk.
    pub open spec fn valid_for(&self, w: WorldView) -> bool {
        &&& self.wf_for(w.archetypes)
        &&& self.spec_is_dense() == all_table(w.components, self.terms())
        &&& forall|k: int| 0 <= k < self.terms().reads.len() ==> (#[trigger] self.terms().reads[k]).0 < w.components.len()
        &&& forall|k: int| 0 <= k < self.terms().with.len() ==> (#[trigger] self.terms().with[k]).0 < w.components.len()
        &&& forall|k: int| 0 <= k < self.terms().without.len() ==> (#[trigger] self.terms().without[k]).0 < w.components.len()
    }

    pub closed spec fn terms(&self) -> QueryTerms {
        QueryTerms { reads: self.reads@, with: self.with@, without: self.without@ }
    }

    pub closed spec fn spec_world_id(&self) -> WorldId {
        self.world_id
    }

    pub closed spec fn spec_is_dense(&self) -> bool {
        self.is_dense
    }

    /// The number of archetypes examined.
    pub closed spec fn generation(&self) -> nat {
        self.archetype_generation.0.0 as nat
    }

    /// The storages to iterate: table ids where every component of the
    /// query has table storage, else archetype ids.
    pub closed spec fn storage_ids(&self) -> Seq<usize> {
        self.matched_storage_ids@
    }

    /// The storages to walk are the tables, or the archetypes, that match
    /// among the examined archetypes.
    pub proof fn lemma_storage_ids(&self, archetypes: Seq<ArchetypeView>)
        requires
            self.wf_for(archetypes),
        ensures
            self.generation() <= archetypes.len(),
            self.storage_ids() == if self.spec_is_dense() {
                matched_table_ids(archetypes, self.terms(), self.generation())
            } else {
                matched_archetype_ids(archetypes, self.terms(), self.generation())
            },
    {
    }

    /// The state agrees with the first `generation` archetypes of `archetypes`.
    pub closed spec fn wf_for(&self, archetypes: Seq<ArchetypeView>) -> bool {
        let q = self.terms();
        let n = self.archetype_generation.0.0 as nat;
        &&& n <= archetypes.len()
        &&& forall|b: usize| #[trigger] raw_bits_of(self.matched_archetypes).contains(b) ==> b < len_of(self.matched_archetypes)
        &&& forall|b: usize| #[trigger] raw_bits_of(self.matched_tables).contains(b) ==> b < len_of(self.matched_tables)
        &&& raw_bits_of(self.matched_archetypes) == Set::new(|a: usize| a < n && matches(archetypes[a as int], q))
        &&& raw_bits_of(self.matched_tables) == Set::new(|t: usize| exists|a: int| 0 <= a < n && matches(archetypes[a], q) && archetypes[a].table_id.0 == t)
        &&& self.is_dense ==> self.matched_storage_ids@ == matched_table_ids(archetypes, q, n)
        &&& !self.is_dense ==> self.matched_storage_ids@ == matched_archetype_ids(archetypes, q, n)
    }
}

impl QueryState {
    /// A query that has examined no archetype yet.
    fn new_uninitialized(world: &World, reads: Vec<ComponentId>, with: Vec<ComponentId>, without: Vec<ComponentId>) -> (r: QueryState)
        requires
            world.wf(),
            forall|k: int| 0 <= k < reads@.len() ==> (#[trigger] reads@[k]).0 < world@.components.len(),
            forall|k: int| 0 <= k < with@.len() ==> (#[trigger] with@[k]).0 < world@.components.len(),
            forall|k: int| 0 <= k < without@.len() ==> (#[trigger] without@[k]).0 < world@.components.len(),
        ensures
            r.valid_for(world@),
            r.spec_world_id() == world.spec_id(),
            r.terms() == (QueryTerms { reads: reads@, with: with@, without: without@ }),
            r.generation() == 0,
    {
        let components = world.components();
        let is_dense = all_table_ids(components, &reads) && all_table_ids(components, &with) && all_table_ids(components, &without);
        let r = QueryState {
            world_id: world.id(),
            archetype_generation: ArchetypeGeneration::initial(),
            matched_tables: FixedBitSet::new(),
            matched_archetypes: FixedBitSet::new(),
            matched_storage_ids: Vec::new(),
            reads,
            with,
            without,
            is_dense,
        };
        proof {
            assert(raw_bits_of(r.matched_archetypes) =~= Set::new(|a: usize| a < 0 && matches(world@.archetypes[a as int], r.terms())));
            assert(raw_bits_of(r.matched_tables) =~= Set::new(|t: usize| exists|a: int| 0 <= a < 0 && matches(world@.archetypes[a], r.terms()) && world@.archetypes[a].table_id.0 == t));
            assert(r.matched_storage_ids@ =~= matched_table_ids(world@.archetypes, r.terms(), 0));
            assert(r.matched_storage_ids@ =~= matched_archetype_ids(world@.archetypes, r.terms(), 0));
        }
        r
    }

    /// Compiles a query against a world: its reads, the components a match
    /// must have and those it must lack.
    pub fn new(world: &World, reads: Vec<ComponentId>, with: Vec<ComponentId>, without: Vec<ComponentId>) -> (r: QueryState)
        requires
            world.wf(),
            forall|k: int| 0 <= k < reads@.len() ==> (#[trigger] reads@[k]).0 < world@.components.len(),
            forall|k: int| 0 <= k < with@.len() ==> (#[trigger] with@[k]).0 < world@.components.len(),
            forall|k: int| 0 <= k < without@.len() ==> (#[trigger] without@[k]).0 < world@.components.len(),
        ensures
            r.valid_for(world@),
            r.spec_world_id() == world.spec_id(),
            r.terms() == (QueryTerms { reads: reads@, with: with@, without: without@ }),
            r.generation() == world@.archetypes.len(),
            r.storage_ids() == if r.spec_is_dense() {
                matched_table_ids(world@.archetypes, r.terms(), world@.archetypes.len())
            } else {
                matched_archetype_ids(world@.archetypes, r.terms(), world@.archetypes.len())
            },
    {
        let mut state = QueryState::new_uninitialized(world, reads, with, without);
        state.update_archetypes(world);
        state
    }

    /// Whether an archetype matches the query.
    fn matches_archetype(&self, archetype: &Archetype) -> (r: bool)
        ensures
            r == matches(archetype@, self.terms()),
    {
        proof {
            assert(self.terms().reads == self.reads@);
            assert(self.terms().with == self.with@);
            assert(self.terms().without == self.without@);
        }
        let mut k: usize = 0;
        while k < self.reads.len()
            invariant
                k <= self.reads.len(),
                forall|j: int| 0 <= j < k ==> archetype@.contains(#[trigger] self.reads@[j]),
            decreases self.reads.len() - k,
        {
            if !archetype.contains(self.reads[k]) {
                proof {
                    assert(!archetype@.contains(self.reads@[k as int]));
                    assert(self.terms().reads[k as int] == self.reads@[k as int]);
                }
                return false;
            }
            k = k + 1;
        }
        let mut k: usize = 0;
        while k < self.with.len()
            invariant
                k <= self.with.len(),
                forall|j: int| 0 <= j < k ==> archetype@.contains(#[trigger] self.with@[j]),
            decreases self.with.len() - k,
        {
            if !archetype.contains(self.with[k]) {
                proof {
                    assert(!archetype@.contains(self.with@[k as int]));
                    assert(self.terms().with[k as int] == self.with@[k as int]);
                }
                return false;
            }
            k = k + 1;
        }
        let mut k: usize = 0;
        while k < self.without.len()
            invariant
                k <= self.without.len(),
                forall|j: int| 0 <= j < k ==> !archetype@.contains(#[trigger] self.without@[j]),
            decreases self.without.len() - k,
        {
            if archetype.contains(self.without[k]) {
                proof {
                    assert(archetype@.contains(self.without@[k as int]));
                    assert(self.terms().without[k as int] == self.without@[k as int]);
                }
                return false;
            }
            k = k + 1;
        }
        true
    }

    /// Examines the next archetype, recording it and its table where it
    /// matches; returns whether it matched.
    fn new_archetype_internal(&mut self, archetype: &Archetype, archetypes: Ghost<Seq<ArchetypeView>>) -> (r: bool)
        requires
            old(self).wf_for(archetypes@),
            old(self).generation() < archetypes@.len(),
            archetypes@.len() < u32::MAX,
            archetype@ == archetypes@[old(self).generation() as int],
            archetype@.id.0 == old(self).generation(),
            archetype@.table_id.0 < u32::MAX,
        ensures
            final(self).wf_for(archetypes@),
            final(self).generation() == old(self).generation() + 1,
            final(self).terms() == old(self).terms(),
            final(self).spec_world_id() == old(self).spec_world_id(),
            final(self).spec_is_dense() == old(self).spec_is_dense(),
            r == matches(archetype@, old(self).terms()),
    {
        let ghost a0 = archetypes@;
        let ghost q = self.terms();
        let ghost n = self.generation();
        let matched = self.matches_archetype(archetype);
        if matched {
            let archetype_index = archetype.id().index();
            proof {
                assert(raw_bits_of(self.matched_archetypes).contains(archetype_index) ==> archetype_index < len_of(self.matched_archetypes));
            }
            if !self.matched_archetypes.contains(archetype_index) {
                self.matched_archetypes.grow_and_insert(archetype_index);
                if !self.is_dense {
                    self.matched_storage_ids.push(archetype_index);
                }
            }
            let table_index = archetype.table_id().as_usize();
            proof {
                lemma_matched_table_ids(a0, q, n);
                assert(self.matched_tables == old(self).matched_tables);
                assert(raw_bits_of(self.matched_tables).contains(table_index) ==> table_index < len_of(self.matched_tables));
            }
            if !self.matched_tables.contains(table_index) {
                self.matched_tables.grow_and_insert(table_index);
                if self.is_dense {
                    self.matched_storage_ids.push(table_index);
                }
            }
        }
        self.archetype_generation = ArchetypeGeneration(ArchetypeId(archetype.id().0 + 1));
        proof {
            let m = (n + 1) as nat;
            assert(raw_bits_of(self.matched_archetypes) =~= Set::new(|a: usize| a < m && matches(a0[a as int], q)));
            assert(raw_bits_of(self.matched_tables) =~= Set::new(|t: usize| exists|a: int| 0 <= a < m && matches(a0[a], q) && a0[a].table_id.0 == t)) by {
                assert forall|t: usize| raw_bits_of(self.matched_tables).contains(t) <==> exists|a: int| 0 <= a < m && matches(a0[a], q) && a0[a].table_id.0 == t by {
                    if exists|a: int| 0 <= a < m && matches(a0[a], q) && a0[a].table_id.0 == t {
                        let a = choose|a: int| 0 <= a < m && matches(a0[a], q) && a0[a].table_id.0 == t;
                        if a < n {
                        }
                    }
                }
            }
            if self.is_dense {
                assert(self.matched_storage_ids@ =~= matched_table_ids(a0, q, m)) by {
                    if matched {
                        assert(matched_table_ids(a0, q, n).contains(archetype@.table_id.0 as usize) <==> exists|a: int| 0 <= a < n && matches(a0[a], q) && a0[a].table_id.0 == archetype@.table_id.0 as usize);
                    }
                }
            } else {
                assert(self.matched_storage_ids@ =~= matched_archetype_ids(a0, q, m));
            }
        }
        matched
    }

    /// Examines the archetypes that the world gained since the last update.
    pub fn update_archetypes(&mut self, world: &World)
        requires
            world.wf(),
            old(self).valid_for(world@),
            old(self).spec_world_id() == world.spec_id(),
        ensures
            final(self).valid_for(world@),
            final(self).generation() == world@.archetypes.len(),
            final(self).storage_ids() == if final(self).spec_is_dense() {
                matched_table_ids(world@.archetypes, final(self).terms(), world@.archetypes.len())
            } else {
                matched_archetype_ids(world@.archetypes, final(self).terms(), world@.archetypes.len())
            },
            final(self).terms() == old(self).terms(),
            final(self).spec_world_id() == old(self).spec_world_id(),
    {
        let archetypes = world.archetypes();
        proof {
            world.lemma_wf();
        }
        let len = archetypes.len();
        while self.archetype_generation.0.index() < len
            invariant
                world.wf(),
                archetypes@ == world@.archetypes,
                crate::archetype::archetypes_wf(world@.archetypes),
                crate::bundle::tables_linked(world@.archetypes, world@.tables),
                crate::table::tables_wf(world@.tables),
                len == world@.archetypes.len(),
                self.valid_for(world@),
                self.terms() == old(self).terms(),
                self.spec_world_id() == old(self).spec_world_id(),
            decreases len - self.generation(),
        {
            let a = self.archetype_generation.0;
            proof {
                assert(world@.archetypes[a.0 as int].table_id.0 < world@.tables.len());
            }
            self.new_archetype_internal(archetypes.at(a), Ghost(world@.archetypes));
        }
    }

    /// The items of the query over the world: for each storage in order,
    /// each of its entities in row order, with the values that it reads.
    pub fn iter(&mut self, world: &World) -> (r: Vec<QueryItem>)
        requires
            world.wf(),
            old(self).valid_for(world@),
            old(self).spec_world_id() == world.spec_id(),
        ensures
            final(self).valid_for(world@),
            final(self).generation() == world@.archetypes.len(),
            final(self).storage_ids() == if final(self).spec_is_dense() {
                matched_table_ids(world@.archetypes, final(self).terms(), world@.archetypes.len())
            } else {
                matched_archetype_ids(world@.archetypes, final(self).terms(), world@.archetypes.len())
            },
            final(self).terms() == old(self).terms(),
            final(self).spec_world_id() == old(self).spec_world_id(),
            r@.len() == visited(world@, final(self).spec_is_dense(), final(self).storage_ids()).len(),
            forall|i: int| 0 <= i < r@.len() ==> {
                let e = visited(world@, final(self).spec_is_dense(), final(self).storage_ids())[i];
                &&& (#[trigger] r@[i]).entity == e
                &&& r@[i].values@.len() == final(self).terms().reads.len()
                &&& forall|k: int| 0 <= k < final(self).terms().reads.len() ==> (#[trigger] r@[i].values@[k])@
                    == world@.component_value(e, final(self).terms().reads[k])
            },
    {
        self.update_archetypes(world);
        proof {
            world.lemma_wf();
        }
        let ghost w = world@;
        let ghost q = self.terms();
        let ghost n = self.generation();
        let ghost ids = self.matched_storage_ids@;
        proof {
            lemma_matched_table_ids(w.archetypes, q, n);
            lemma_matched_archetype_ids(w.archetypes, q, n);
        }
        let mut out: Vec<QueryItem> = Vec::new();
        let mut s: usize = 0;
        while s < self.matched_storage_ids.len()
            invariant
                world.wf(),
                w == world@,
                self.valid_for(w),
                q == self.terms(),
                n == self.generation(),
                n == w.archetypes.len(),
                ids == self.matched_storage_ids@,
                ids == self.storage_ids(),
                w.registries_ok(),
                w.linked(),
                crate::archetype::archetypes_wf(w.archetypes),
                crate::table::tables_wf(w.tables),
                self.is_dense ==> ids == matched_table_ids(w.archetypes, q, n),
                !self.is_dense ==> ids == matched_archetype_ids(w.archetypes, q, n),
                forall|t: usize| matched_table_ids(w.archetypes, q, n).contains(t) <==> exists|a: int| 0 <= a < n && matches(w.archetypes[a], q) && w.archetypes[a].table_id.0 == t,
                forall|a: usize| matched_archetype_ids(w.archetypes, q, n).contains(a) <==> a < n && matches(w.archetypes[a as int], q),
                s <= ids.len(),
                out@.len() == visited(w, self.is_dense, ids.subrange(0, s as int)).len(),
                forall|i: int| 0 <= i < out@.len() ==> {
                    let e = visited(w, self.is_dense, ids.subrange(0, s as int))[i];
                    &&& (#[trigger] out@[i]).entity == e
                    &&& out@[i].values@.len() == q.reads.len()
                    &&& forall|k: int| 0 <= k < q.reads.len() ==> (#[trigger] out@[i].values@[k])@ == w.component_value(e, q.reads[k])
                },
            decreases ids.len() - s,
        {
            let id = self.matched_storage_ids[s];
            let ghost prefix = visited(w, self.is_dense, ids.subrange(0, s as int));
            let ghost base = out@.len();
            proof {
                assert(ids.subrange(0, s + 1).drop_last() =~= ids.subrange(0, s as int));
                assert(ids.subrange(0, s + 1).last() == id);
                assert(ids.contains(id));
            }
            if self.is_dense {
                let ghost a = choose|a: int| 0 <= a < n && matches(w.archetypes[a], q) && w.archetypes[a].table_id.0 == id;
                proof {
                    assert(w.archetypes[a].table_id.0 < w.tables.len());
                }
                let table = world.tables().get(TableId(id as u32)).unwrap();
                let ents = table.entities();
                let mut r: usize = 0;
                while r < ents.len()
                    invariant
                        world.wf(),
                        w == world@,
                        w.registries_ok(),
                        w.linked(),
                        self.valid_for(w),
                        self.is_dense,
                        q == self.terms(),
                        0 <= a < n,
                        n == w.archetypes.len(),
                        matches(w.archetypes[a], q),
                        w.archetypes[a].table_id.0 == id,
                        ents@ == w.tables[id as int].entities,
                        r <= ents.len(),
                        out@.len() == base + r,
                        out@.len() >= base,
                        forall|i: int| 0 <= i < base ==> {
                            let e = prefix[i];
                            &&& (#[trigger] out@[i]).entity == e
                            &&& out@[i].values@.len() == q.reads.len()
                            &&& forall|k: int| 0 <= k < q.reads.len() ==> (#[trigger] out@[i].values@[k])@ == w.component_value(e, q.reads[k])
                        },
                        base == prefix.len(),
                        forall|i: int| base <= i < out@.len() ==> {
                            let e = ents@[i - base];
                            &&& (#[trigger] out@[i]).entity == e
                            &&& out@[i].values@.len() == q.reads.len()
                            &&& forall|k: int| 0 <= k < q.reads.len() ==> (#[trigger] out@[i].values@[k])@ == w.component_value(e, q.reads[k])
                        },
                    decreases ents.len() - r,
                {
                    let e = ents[r];
                    proof {
                        assert(w.entities.contains(e));
                        let l = w.loc(e);
                        assert(w.entity_linked(e));
                        let ae = l.archetype_id.0 as int;
                        assert(w.archetypes[ae].table_id == l.table_id);
                        assert(l.table_id.0 == id);
                        assert(w.archetypes[ae].table_components == w.tables[id as int].ids);
                        assert(w.archetypes[a].table_components == w.tables[id as int].ids);
                        assert forall|k: int| 0 <= k < q.reads.len() implies w.has_component(e, #[trigger] q.reads[k]) by {
                            let c = q.reads[k];
                            assert(w.archetypes[a].contains(c));
                            assert(w.components[c.0 as int].storage_type == StorageType::Table);
                            if !w.archetypes[a].table_components.contains(c) {
                                assert(w.archetypes[a].sparse_set_components.contains(c));
                            }
                        }
                    }
                    let values = fetch_values(world, e, &self.reads);
                    out.push(QueryItem { entity: e, values });
                    r = r + 1;
                }
                proof {
                    let next = visited(w, self.is_dense, ids.subrange(0, s + 1));
                    assert(next == prefix + w.tables[id as int].entities);
                }
            } else {
                proof {
                    assert(id < n && matches(w.archetypes[id as int], q));
                }
                let arch = world.archetypes().at(ArchetypeId(id as u32));
                let ents = arch.entities();
                let ghost aid = id as int;
                let mut r: usize = 0;
                while r < ents.len()
                    invariant
                        world.wf(),
                        w == world@,
                        w.registries_ok(),
                        w.linked(),
                        self.valid_for(w),
                        q == self.terms(),
                        0 <= aid < n,
                        n < u32::MAX,
                        aid == id,
                        n == w.archetypes.len(),
                        matches(w.archetypes[aid], q),
                        ents@ == w.archetypes[aid].entities,
                        r <= ents.len(),
                        out@.len() == base + r,
                        forall|i: int| 0 <= i < base ==> {
                            let e = prefix[i];
                            &&& (#[trigger] out@[i]).entity == e
                            &&& out@[i].values@.len() == q.reads.len()
                            &&& forall|k: int| 0 <= k < q.reads.len() ==> (#[trigger] out@[i].values@[k])@ == w.component_value(e, q.reads[k])
                        },
                        base == prefix.len(),
                        forall|i: int| base <= i < out@.len() ==> {
                            let e = ents@[i - base].entity;
                            &&& (#[trigger] out@[i]).entity == e
                            &&& out@[i].values@.len() == q.reads.len()
                            &&& forall|k: int| 0 <= k < q.reads.len() ==> (#[trigger] out@[i].values@[k])@ == w.component_value(e, q.reads[k])
                        },
                    decreases ents.len() - r,
                {
                    let e = ents[r].entity;
                    proof {
                        assert(w.archetypes[aid].entities[r as int].entity == e);
                        assert(w.entities.contains(e));
                        assert(w.loc(e).archetype_id.0 == aid);
                        assert forall|k: int| 0 <= k < q.reads.len() implies w.has_component(e, #[trigger] q.reads[k]) by {
                            assert(w.archetypes[aid].contains(q.reads[k]));
                        }
                    }
                    let values = fetch_values(world, e, &self.reads);
                    out.push(QueryItem { entity: e, values });
                    r = r + 1;
                }
                proof {
                    let next = visited(w, self.is_dense, ids.subrange(0, s + 1));
                    let mapped = w.archetypes[aid].entities.map_values(|ae: crate::archetype::ArchetypeEntity| ae.entity);
                    assert(next == prefix + mapped);
                }
            }
            s = s + 1;
            proof {
                let next = visited(w, self.is_dense, ids.subrange(0, s as int));
                assert forall|i: int| 0 <= i < out@.len() implies {
                    let e = next[i];
                    &&& (#[trigger] out@[i]).entity == e
                    &&& out@[i].values@.len() == q.reads.len()
                    &&& forall|k: int| 0 <= k < q.reads.len() ==> (#[trigger] out@[i].values@[k])@ == w.component_value(e, q.reads[k])
                } by {
                    if i < base {
                        assert(next[i] == prefix[i]);
                    }
                }
            }
        }
        proof {
            assert(ids.subrange(0, ids.len() as int) =~= ids);
        }
        out
    }
}

/// Whether every id of the list names a table-class component.
fn all_table_ids(components: &crate::component::Components, ids: &Vec<ComponentId>) -> (r: bool)
    requires
        forall|k: int| 0 <= k < ids@.len() ==> (#[trigger] ids@[k]).0 < components@.len(),
    ensures
        r == forall|k: int| 0 <= k < ids@.len() ==> components@[(#[trigger] ids@[k]).0 as int].storage_type == StorageType::Table,
{
    let mut k: usize = 0;
    while k < ids.len()
        invariant
            k <= ids.len(),
            forall|j: int| 0 <= j < ids@.len() ==> (#[trigger] ids@[j]).0 < components@.len(),
            forall|j: int| 0 <= j < k ==> components@[(#[trigger] ids@[j]).0 as int].storage_type == StorageType::Table,
        decreases ids.len() - k,
    {
        if components.storage_type_of(ids[k]) != StorageType::Table {
            return false;
        }
        k = k + 1;
    }
    true
}

/// The values of the read components of a live entity that has them all.
fn fetch_values(world: &World, entity: Entity, reads: &Vec<ComponentId>) -> (r: Vec<Vec<u8>>)
    requires
        world.wf(),
        forall|k: int| 0 <= k < reads@.len() ==> world@.has_component(entity, #[trigger] reads@[k]),
    ensures
        r@.len() == reads@.len(),
        forall|k: int| 0 <= k < reads@.len() ==> (#[trigger] r@[k])@ == world@.component_value(entity, reads@[k]),
{
    let mut out: Vec<Vec<u8>> = Vec::new();
    let mut k: usize = 0;
    while k < reads.len()
        invariant
            world.wf(),
            k <= reads.len(),
            out@.len() == k,
            forall|j: int| 0 <= j < reads@.len() ==> world@.has_component(entity, #[trigger] reads@[j]),
            forall|j: int| 0 <= j < k ==> (#[trigger] out@[j])@ == world@.component_value(entity, reads@[j]),
        decreases reads.len() - k,
    {
        let v = world.get_component(entity, reads[k]).unwrap();
        out.push(copy_bytes(v));
        k = k + 1;
    }
    out
}

} // verus!
