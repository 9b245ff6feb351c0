use vstd::prelude::*;

use crate::archetype::{ArchetypeId, ArchetypeRow, INVALID_ARCHETYPE};
use crate::table::{TableId, TableRow};

verus! {

/// An entity: an index slot together with the generation of its current use.
/// The generation of a well-formed entity is never zero.
#[derive(Clone, Copy, Debug, PartialEq, Eq, Structural, Hash, PartialOrd, Ord)]
pub struct Entity {
    pub generation: u32,
    pub index: u32,
}

/// The 64-bit composite of an entity: generation above, index below.
pub open spec fn entity_bits(e: Entity) -> int {
    e.generation * 0x1_0000_0000 + e.index
}

impl Entity {
    pub open spec fn wf(self) -> bool {
        self.generation > 0
    }

    pub fn from_raw_and_generation(index: u32, generation: u32) -> (r: Entity)
        requires
            generation > 0,
        ensures
            r.index == index,
            r.generation == generation,
    {
        Entity { generation, index }
    }

    /// The entity at `index` in its first generation.
    pub fn from_raw(index: u32) -> (r: Entity)
        ensures
            r.index == index,
            r.generation == 1,
    {
        Entity { generation: 1, index }
    }

    /// The value with the largest index, which never names a live entity.
    pub fn placeholder() -> (r: Entity)
        ensures
            r.index == u32::MAX,
            r.generation == 1,
    {
        Entity { generation: 1, index: u32::MAX }
    }

    /// Reads an entity back from its 64-bit composite; `None` where the
    /// generation part is zero.
    pub fn from_bits(bits: u64) -> (r: Option<Entity>)
        ensures
            r is None <==> bits / 0x1_0000_0000 == 0,
            r matches Some(e) ==> e.generation == bits / 0x1_0000_0000 && e.index == bits
                % 0x1_0000_0000 && entity_bits(e) == bits,
    {
        let high = bits >> 32u64;
        let low = bits & 0xffff_ffffu64;
        proof {
            assert((bits >> 32u64) == bits / 0x1_0000_0000) by (bit_vector);
            assert((bits & 0xffff_ffffu64) == bits % 0x1_0000_0000) by (bit_vector);
            assert(bits == (bits / 0x1_0000_0000) * 0x1_0000_0000 + bits % 0x1_0000_0000) by (
            nonlinear_arith);
        }
        if high == 0 {
            None
        } else {
            Some(Entity { generation: high as u32, index: low as u32 })
        }
    }

    /// The 64-bit composite on which order, equality and hashing rest.
    pub fn to_bits(self) -> (r: u64)
        ensures
            r == entity_bits(self),
    {
        let g = self.generation as u64;
        let i = self.index as u64;
        proof {
            assert(g <= 0xffff_ffff ==> i <= 0xffff_ffff ==> ((g << 32u64) | i) == g * 0x1_0000_0000
                + i) by (bit_vector);
        }
        (g << 32u64) | i
    }

    pub fn index(self) -> (r: u32)
        ensures
            r == self.index,
    {
        self.index
    }

    pub fn generation(self) -> (r: u32)
        ensures
            r == self.generation,
    {
        self.generation
    }
}

/// Where an entity's components are stored.
#[derive(Clone, Copy, Debug, PartialEq, Eq, Structural)]
pub struct EntityLocation {
    pub archetype_id: ArchetypeId,
    pub archetype_row: ArchetypeRow,
    pub table_id: TableId,
    pub table_row: TableRow,
}

pub open spec fn invalid_location() -> EntityLocation {
    EntityLocation {
        archetype_id: ArchetypeId(INVALID_ARCHETYPE),
        archetype_row: ArchetypeRow(u32::MAX),
        table_id: TableId(u32::MAX),
        table_row: TableRow(u32::MAX),
    }
}

impl EntityLocation {
    /// The location of an index slot that holds no live entity.
    pub fn invalid() -> (r: EntityLocation)
        ensures
            r == invalid_location(),
    {
        EntityLocation {
            archetype_id: ArchetypeId::invalid(),
            archetype_row: ArchetypeRow::invalid(),
            table_id: TableId::invalid(),
            table_row: TableRow::invalid(),
        }
    }

    pub open spec fn is_valid(self) -> bool {
        self.archetype_id.0 != INVALID_ARCHETYPE
    }
}

/// The bookkeeping of one index slot.
#[derive(Clone, Copy, Debug, PartialEq, Eq, Structural)]
pub struct EntityMeta {
    pub generation: u32,
    pub location: EntityLocation,
}

pub open spec fn empty_meta() -> EntityMeta {
    EntityMeta { generation: 1, location: invalid_location() }
}

/// The error of an operation on an entity that is not alive.
#[derive(Clone, Copy, Debug, PartialEq, Eq, Structural)]
pub struct NoSuchEntity;

impl NoSuchEntity {
    pub fn message(&self) -> (r: &'static str) {
        "no such entity"
    }
}

/// The generation that follows `g` when its slot is freed: one more, skipping zero.
pub open spec fn next_generation(g: u32) -> u32 {
    if g == u32::MAX {
        1
    } else {
        (g + 1) as u32
    }
}

/// The abstract state of the entity allocator.
pub struct EntitiesView {
    pub meta: Seq<EntityMeta>,
    pub pending: Seq<u32>,
    pub free_cursor: int,
    pub len: nat,
}

impl EntitiesView {
    pub open spec fn wf(self) -> bool {
        &&& self.meta.len() <= u32::MAX
        &&& forall|i: int| 0 <= i < self.meta.len() ==> #[trigger] self.meta[i].generation > 0
        &&& forall|j: int|
            0 <= j < self.pending.len() ==> #[trigger] self.pending[j] < self.meta.len()
                && !self.meta[self.pending[j] as int].location.is_valid()
        &&& forall|j: int, k: int|
            0 <= j < self.pending.len() && 0 <= k < self.pending.len() && j != k
                ==> self.pending[j] != self.pending[k]
        &&& self.free_cursor <= self.pending.len()
        &&& self.meta.len() - self.free_cursor <= u32::MAX
        &&& self.len == self.meta.len() - self.pending.len()
    }

    /// No reservation is waiting for a flush.
    pub open spec fn flushed(self) -> bool {
        self.free_cursor == self.pending.len()
    }

    /// A reservation would not run out of indices.
    pub open spec fn can_reserve(self) -> bool {
        self.free_cursor > 0 || self.meta.len() - self.free_cursor < u32::MAX
    }

    /// An allocation would not run out of indices.
    pub open spec fn can_alloc(self) -> bool {
        self.pending.len() > 0 || self.meta.len() < u32::MAX
    }

    /// The entity that `entity` names is alive.
    pub open spec fn contains(self, e: Entity) -> bool {
        &&& e.index < self.meta.len()
        &&& self.meta[e.index as int].generation == e.generation
        &&& self.meta[e.index as int].location.is_valid()
    }

    /// What `reserve_entity` hands out and leaves behind.
    pub open spec fn reserve(self) -> (Entity, EntitiesView) {
        let n = self.free_cursor;
        let e = if n > 0 {
            let id = self.pending[n - 1];
            Entity { generation: self.meta[id as int].generation, index: id }
        } else {
            Entity { generation: 1, index: (self.meta.len() - n) as u32 }
        };
        (e, EntitiesView { free_cursor: n - 1, ..self })
    }

    /// What `allocate` hands out and leaves behind.
    pub open spec fn allocate(self) -> (Entity, EntitiesView) {
        if self.pending.len() > 0 {
            let id = self.pending.last();
            let pending = self.pending.drop_last();
            (
                Entity { generation: self.meta[id as int].generation, index: id },
                EntitiesView {
                    pending,
                    free_cursor: pending.len() as int,
                    len: self.len + 1,
                    ..self
                },
            )
        } else {
            (
                Entity { generation: 1, index: self.meta.len() as u32 },
                EntitiesView { meta: self.meta.push(empty_meta()), len: self.len + 1, ..self },
            )
        }
    }

    /// The slots that a flush materialises: fresh slots first, then the
    /// reserved part of the pending list in its order.
    pub open spec fn flush(self) -> (Seq<Entity>, EntitiesView) {
        let start: int = if self.free_cursor >= 0 {
            self.free_cursor
        } else {
            0
        };
        let fresh: int = if self.free_cursor < 0 {
            -self.free_cursor
        } else {
            0
        };
        let meta = self.meta + Seq::new(fresh as nat, |k: int| empty_meta());
        let out = Seq::new(
            fresh as nat,
            |k: int| Entity { generation: 1, index: (self.meta.len() + k) as u32 },
        ) + Seq::new(
            (self.pending.len() - start) as nat,
            |k: int|
                Entity {
                    generation: self.meta[self.pending[start + k] as int].generation,
                    index: self.pending[start + k],
                },
        );
        (
            out,
            EntitiesView {
                meta,
                pending: self.pending.subrange(0, start),
                free_cursor: start,
                len: (meta.len() - start) as nat,
            },
        )
    }
}

/// Reserving an entity and then flushing materialises exactly the reserved
/// entity, once: it ends up with a slot of its own in the metadata, and its
/// index is no longer pending reuse.
pub proof fn lemma_reserve_then_flush(v: EntitiesView)
    requires
        v.wf(),
        v.flushed(),
        v.can_reserve(),
    ensures
        ({
            let (e, v1) = v.reserve();
            let (out, v2) = v1.flush();
            &&& out == seq![e]
            &&& e.index < v2.meta.len()
            &&& v2.meta[e.index as int].generation == e.generation
            &&& !v2.pending.contains(e.index)
            &&& v2.wf()
            &&& v2.flushed()
        }),
{
    let (e, v1) = v.reserve();
    let (out, v2) = v1.flush();
    if v.free_cursor > 0 {
        assert(out =~= seq![e]);
        assert forall|j: int| 0 <= j < v2.pending.len() implies v2.pending[j] != e.index by {
            assert(v.pending[j] == v2.pending[j]);
        }
    } else {
        assert(out =~= seq![e]);
    }
}

/// The entities that a flush materialises have distinct indices, slots of
/// their own with their generation, no location yet, and no place in the
/// pending list.
pub proof fn lemma_flush_out(v: EntitiesView)
    requires
        v.wf(),
    ensures
        ({
            let (out, v2) = v.flush();
            &&& v2.wf()
            &&& forall|k: int| 0 <= k < out.len() ==> {
                &&& (#[trigger] out[k]).index < v2.meta.len()
                &&& v2.meta[out[k].index as int].generation == out[k].generation
                &&& !v2.meta[out[k].index as int].location.is_valid()
                &&& !v2.pending.contains(out[k].index)
            }
            &&& forall|j: int, k: int| 0 <= j < out.len() && 0 <= k < out.len() && j != k ==> out[j].index != out[k].index
        }),
{
    let (out, v2) = v.flush();
    let start: int = if v.free_cursor >= 0 { v.free_cursor } else { 0 };
    let fresh: int = if v.free_cursor < 0 { -v.free_cursor } else { 0 };
    assert forall|k: int| 0 <= k < out.len() implies {
        &&& (#[trigger] out[k]).index < v2.meta.len()
        &&& v2.meta[out[k].index as int].generation == out[k].generation
        &&& !v2.meta[out[k].index as int].location.is_valid()
        &&& !v2.pending.contains(out[k].index)
    } by {
        if k < fresh {
            assert(out[k].index == v.meta.len() + k);
            assert(v2.meta[out[k].index as int] == empty_meta());
            assert forall|j: int| 0 <= j < v2.pending.len() implies v2.pending[j] != out[k].index by {
                assert(v2.pending[j] == v.pending[j]);
            }
        } else {
            let p = start + (k - fresh);
            assert(out[k].index == v.pending[p]);
            assert(v2.meta[out[k].index as int] == v.meta[v.pending[p] as int]);
            assert forall|j: int| 0 <= j < v2.pending.len() implies v2.pending[j] != out[k].index by {
                assert(v2.pending[j] == v.pending[j]);
                assert(j < start);
            }
        }
    }
    assert forall|j: int, k: int| 0 <= j < out.len() && 0 <= k < out.len() && j != k implies out[j].index != out[k].index by {
        if j >= fresh && k >= fresh {
            assert(out[j].index == v.pending[start + (j - fresh)]);
            assert(out[k].index == v.pending[start + (k - fresh)]);
        } else if j >= fresh {
            assert(out[j].index == v.pending[start + (j - fresh)]);
        } else if k >= fresh {
            assert(out[k].index == v.pending[start + (k - fresh)]);
        }
    }
}

/// A pending list of distinct indices below `n` that misses `x < n` is
/// shorter than `n`.
proof fn lemma_pending_short(pending: Seq<u32>, n: nat, x: u32)
    requires
        x < n,
        forall|j: int| 0 <= j < pending.len() ==> #[trigger] pending[j] < n && pending[j] != x,
        forall|j: int, k: int|
            0 <= j < pending.len() && 0 <= k < pending.len() && j != k ==> pending[j] != pending[k],
    ensures
        pending.len() < n,
{
    let p = pending.map_values(|y: u32| y as int);
    assert(p.no_duplicates()) by {
        assert forall|j: int, k: int| 0 <= j < p.len() && 0 <= k < p.len() && j != k implies p[j]
            != p[k] by {
            assert(pending[j] != pending[k]);
        }
    }
    p.unique_seq_to_set();
    let range = vstd::set_lib::set_int_range(0, n as int).remove(x as int);
    vstd::set_lib::lemma_int_range(0, n as int);
    assert(p.to_set().subset_of(range)) by {
        assert forall|y: int| p.to_set().contains(y) implies range.contains(y) by {
            let j = choose|j: int| 0 <= j < p.len() && p[j] == y;
            assert(pending[j] < n && pending[j] != x);
        }
    }
    vstd::set_lib::lemma_len_subset(p.to_set(), range);
}

/// The allocator of entity identities, with the location of every live entity.
#[derive(Debug)]
pub struct Entities {
    meta: Vec<EntityMeta>,
    pending: Vec<u32>,
    free_cursor: i64,
    len: u32,
}

impl View for Entities {
    type V = EntitiesView;

    closed spec fn view(&self) -> EntitiesView {
        EntitiesView {
            meta: self.meta@,
            pending: self.pending@,
            free_cursor: self.free_cursor as int,
            len: self.len as nat,
        }
    }
}

impl Entities {
    pub open spec fn wf(&self) -> bool {
        self@.wf()
    }

    pub fn new() -> (r: Entities)
        ensures
            r.wf(),
            r@.meta.len() == 0,
            r@.pending.len() == 0,
            r@.free_cursor == 0,
            r@.len == 0,
    {
        Entities { meta: Vec::new(), pending: Vec::new(), free_cursor: 0, len: 0 }
    }

    /// Hands out an identity without touching the metadata: a pending index
    /// if one is left beyond the reservations, else a fresh index past the
    /// end of the metadata. A flush materialises it.
    pub fn reserve_entity(&mut self) -> (r: Entity)
        requires
            old(self).wf(),
            old(self)@.can_reserve(),
        ensures
            final(self).wf(),
            (r, final(self)@) == old(self)@.reserve(),
            r.wf(),
    {
        let n = self.free_cursor;
        self.free_cursor = n - 1;
        if n > 0 {
            let id = self.pending[(n - 1) as usize];
            Entity { generation: self.meta[id as usize].generation, index: id }
        } else {
            let index = (self.meta.len() as i64 - n) as u32;
            Entity { generation: 1, index }
        }
    }

    /// Allocates an identity at once: the most recently freed index, or a
    /// fresh slot at the end of the metadata.
    pub fn allocate(&mut self) -> (r: Entity)
        requires
            old(self).wf(),
            old(self)@.flushed(),
            old(self)@.can_alloc(),
        ensures
            final(self).wf(),
            final(self)@.flushed(),
            (r, final(self)@) == old(self)@.allocate(),
            r.wf(),
            !final(self)@.pending.contains(r.index),
            r.index < final(self)@.meta.len(),
    {
        self.len = self.len + 1;
        if self.pending.len() > 0 {
            let id = self.pending.pop().unwrap();
            self.free_cursor = self.pending.len() as i64;
            proof {
                assert forall|j: int| 0 <= j < self.pending@.len() implies self.pending@[j] != id by {
                    assert(old(self)@.pending[j] == self.pending@[j]);
                }
            }
            Entity { generation: self.meta[id as usize].generation, index: id }
        } else {
            let id = self.meta.len() as u32;
            self.meta.push(EntityMeta { generation: 1, location: EntityLocation::invalid() });
            Entity { generation: 1, index: id }
        }
    }

    /// Frees a live entity: its slot gets the next generation and an invalid
    /// location, and its index joins the pending list.
    pub fn free(&mut self, entity: Entity) -> (r: Result<EntityLocation, NoSuchEntity>)
        requires
            old(self).wf(),
            old(self)@.flushed(),
        ensures
            final(self).wf(),
            final(self)@.flushed(),
            r is Err <==> !old(self)@.contains(entity),
            r is Err ==> final(self)@ == old(self)@,
            r matches Ok(loc) ==> {
                &&& loc == old(self)@.meta[entity.index as int].location
                &&& final(self)@.meta == old(self)@.meta.update(
                    entity.index as int,
                    EntityMeta {
                        generation: next_generation(entity.generation),
                        location: invalid_location(),
                    },
                )
                &&& final(self)@.pending == old(self)@.pending.push(entity.index)
                &&& final(self)@.len == old(self)@.len - 1
            },
    {
        let idx = entity.index as usize;
        if idx >= self.meta.len() {
            return Err(NoSuchEntity);
        }
        let m = self.meta[idx];
        if m.generation != entity.generation || m.location.archetype_id.0 == INVALID_ARCHETYPE {
            return Err(NoSuchEntity);
        }
        let generation = if m.generation == u32::MAX {
            1
        } else {
            m.generation + 1
        };
        self.meta.set(idx, EntityMeta { generation, location: EntityLocation::invalid() });
        proof {
            assert forall|j: int| 0 <= j < old(self)@.pending.len() implies old(
                self,
            )@.pending[j] != entity.index by {}
        }
        proof {
            lemma_pending_short(old(self)@.pending, old(self)@.meta.len(), entity.index);
        }
        self.pending.push(entity.index);
        self.free_cursor = self.pending.len() as i64;
        self.len = self.len - 1;
        Ok(m.location)
    }

    /// Whether reservations wait for a flush.
    pub fn needs_flush(&self) -> (r: bool)
        requires
            self.wf(),
        ensures
            r == !self@.flushed(),
    {
        self.free_cursor != self.pending.len() as i64
    }

    /// Materialises every reservation: fresh indices get metadata slots,
    /// reserved pending indices leave the pending list. Returns the
    /// materialised entities, whose locations are still invalid.
    pub fn flush(&mut self) -> (r: Vec<Entity>)
        requires
            old(self).wf(),
        ensures
            final(self).wf(),
            final(self)@.flushed(),
            (r@, final(self)@) == old(self)@.flush(),
    {
        let ghost v = self@;
        let ghost spec_out = v.flush().0;
        let fc = self.free_cursor;
        let mut out: Vec<Entity> = Vec::new();
        let start: usize;
        if fc >= 0 {
            start = fc as usize;
        } else {
            let old_len = self.meta.len();
            let fresh = (-fc) as usize;
            let mut i: usize = 0;
            while i < fresh
                invariant
                    v.wf(),
                    v.free_cursor == fc,
                    fc < 0,
                    fresh == -fc,
                    old_len == v.meta.len(),
                    i <= fresh,
                    self.meta@ == v.meta + Seq::new(i as nat, |k: int| empty_meta()),
                    out@ == Seq::new(
                        i as nat,
                        |k: int| Entity { generation: 1, index: (v.meta.len() + k) as u32 },
                    ),
                    self.pending@ == v.pending,
                decreases fresh - i,
            {
                self.meta.push(EntityMeta { generation: 1, location: EntityLocation::invalid() });
                out.push(Entity { generation: 1, index: (old_len + i) as u32 });
                i = i + 1;
                proof {
                    assert(self.meta@ =~= v.meta + Seq::new(i as nat, |k: int| empty_meta()));
                    assert(out@ =~= Seq::new(
                        i as nat,
                        |k: int| Entity { generation: 1, index: (v.meta.len() + k) as u32 },
                    ));
                }
            }
            start = 0;
        }
        let ghost fresh_part = out@;
        let mut j: usize = start;
        while j < self.pending.len()
            invariant
                v.wf(),
                start as int == (if v.free_cursor >= 0 { v.free_cursor } else { 0 }),
                start <= j <= v.pending.len(),
                self.pending@ == v.pending,
                self.meta@ == v.flush().1.meta,
                fresh_part == spec_out.subrange(0, spec_out.len() - (v.pending.len() - start)),
                out@ == fresh_part + Seq::new(
                    (j - start) as nat,
                    |k: int|
                        Entity {
                            generation: v.meta[v.pending[start + k] as int].generation,
                            index: v.pending[start + k],
                        },
                ),
            decreases self.pending.len() - j,
        {
            let id = self.pending[j];
            out.push(Entity { generation: self.meta[id as usize].generation, index: id });
            j = j + 1;
            proof {
                assert(out@ =~= fresh_part + Seq::new(
                    (j - start) as nat,
                    |k: int|
                        Entity {
                            generation: v.meta[v.pending[start + k] as int].generation,
                            index: v.pending[start + k],
                        },
                ));
            }
        }
        self.pending.truncate(start);
        self.free_cursor = start as i64;
        self.len = (self.meta.len() - start) as u32;
        proof {
            assert(out@ =~= spec_out);
            assert(self.pending@ =~= v.pending.subrange(0, start as int));
        }
        out
    }

    /// The location of a live entity; `None` for a stale generation or a
    /// slot without a location.
    pub fn get(&self, entity: Entity) -> (r: Option<EntityLocation>)
        ensures
            r is Some <==> self@.contains(entity),
            r matches Some(loc) ==> loc == self@.meta[entity.index as int].location,
    {
        let idx = entity.index as usize;
        if idx < self.meta.len() {
            let m = self.meta[idx];
            if m.generation != entity.generation || m.location.archetype_id.0 == INVALID_ARCHETYPE {
                None
            } else {
                Some(m.location)
            }
        } else {
            None
        }
    }

    /// Records the location of the entity at `index`.
    pub fn set(&mut self, index: u32, location: EntityLocation)
        requires
            old(self).wf(),
            index < old(self)@.meta.len(),
            !old(self)@.pending.contains(index),
        ensures
            final(self).wf(),
            final(self)@ == (EntitiesView {
                meta: old(self)@.meta.update(
                    index as int,
                    EntityMeta { generation: old(self)@.meta[index as int].generation, location },
                ),
                ..old(self)@
            }),
    {
        let g = self.meta[index as usize].generation;
        self.meta.set(index as usize, EntityMeta { generation: g, location });
        proof {
            assert forall|j: int| 0 <= j < self.pending@.len() implies #[trigger] self.pending@[j]
                < self.meta@.len() && !self.meta@[self.pending@[j] as int].location.is_valid() by {
                assert(old(self)@.pending[j] != index);
            }
        }
    }

    /// The number of allocated entities.
    pub fn len(&self) -> (r: u32)
        ensures
            r == self@.len,
    {
        self.len
    }

    pub fn is_empty(&self) -> (r: bool)
        ensures
            r == (self@.len == 0),
    {
        self.len == 0
    }
}

} // verus!
