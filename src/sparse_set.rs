use vstd::prelude::*;

use nonmax::NonMaxUsize;

use crate::blob_vec::swap_remove_seq;
use crate::component::{ComponentId, ComponentInfo, Layout};
use crate::entity::Entity;
use crate::table::{signals_kept, Column, ColumnView, TableRow};
use crate::tick::{tick_distance, ComponentTicks, Tick, MAX_CHANGE_AGE};

verus! {

#[verifier::external_type_specification]
#[verifier::external_body]
pub struct ExNonMaxUsize(NonMaxUsize);

/// The integer that a `NonMaxUsize` holds.
pub uninterp spec fn nonmax_value(n: NonMaxUsize) -> usize;

/// Relies on nonmax's `NonMaxUsize::new`: `None` exactly for `usize::MAX`,
/// else a value that gives back `value`.
pub assume_specification[ NonMaxUsize::new ](value: usize) -> (r: Option<NonMaxUsize>)
    ensures
        r is None <==> value == usize::MAX,
        r matches Some(n) ==> nonmax_value(n) == value,
;

/// Relies on nonmax's `NonMaxUsize::get`: the value it was made from.
pub assume_specification[ NonMaxUsize::get ](n: &NonMaxUsize) -> (r: usize)
    ensures
        r == nonmax_value(*n),
;

/// A value that names a slot of a sparse array.
pub trait SparseSetIndex: Sized {
    fn sparse_set_index(&self) -> (r: usize);

    fn get_sparse_set_index(value: usize) -> (r: Self);
}

impl SparseSetIndex for ComponentId {
    fn sparse_set_index(&self) -> (r: usize) {
        self.0
    }

    fn get_sparse_set_index(value: usize) -> (r: ComponentId) {
        ComponentId(value)
    }
}

impl SparseSetIndex for crate::bundle::BundleId {
    fn sparse_set_index(&self) -> (r: usize) {
        self.0
    }

    fn get_sparse_set_index(value: usize) -> (r: crate::bundle::BundleId) {
        crate::bundle::BundleId(value)
    }
}

/// A slot of the sparse part that points at dense position `k`.
pub open spec fn points_at(o: Option<NonMaxUsize>, k: int) -> bool {
    match o {
        Some(n) => nonmax_value(n) == k,
        None => false,
    }
}

/// A slot of the sparse part that points inside `indices`, at `i`.
pub open spec fn points_back(o: Option<NonMaxUsize>, indices: Seq<usize>, i: int) -> bool {
    match o {
        Some(n) => nonmax_value(n) < indices.len() && indices[nonmax_value(n) as int] == i,
        None => true,
    }
}

/// What a sparse array holds at `i`: absent past its end.
pub open spec fn lookup<V>(s: Seq<Option<V>>, i: int) -> Option<V> {
    if 0 <= i < s.len() {
        s[i]
    } else {
        None
    }
}

/// A map from small integers to values, stored as a vector of slots.
#[derive(Debug)]
pub struct SparseArray<V> {
    values: Vec<Option<V>>,
}

impl<V> View for SparseArray<V> {
    type V = Seq<Option<V>>;

    closed spec fn view(&self) -> Seq<Option<V>> {
        self.values@
    }
}

impl<V> SparseArray<V> {
    pub open spec fn spec_get(&self, i: int) -> Option<V> {
        lookup(self@, i)
    }

    pub fn new() -> (r: SparseArray<V>)
        ensures
            forall|i: int| r.spec_get(i) is None,
    {
        SparseArray { values: Vec::new() }
    }

    pub fn contains(&self, index: usize) -> (r: bool)
        ensures
            r == self.spec_get(index as int) is Some,
    {
        index < self.values.len() && self.values[index].is_some()
    }

    pub fn get(&self, index: usize) -> (r: Option<&V>)
        ensures
            r is Some <==> self.spec_get(index as int) is Some,
            r matches Some(v) ==> self.spec_get(index as int) == Some(*v),
    {
        if index < self.values.len() {
            self.values[index].as_ref()
        } else {
            None
        }
    }

    /// Stores `value` at `index`, growing the array as needed.
    pub fn insert(&mut self, index: usize, value: V)
        requires
            index < usize::MAX,
        ensures
            forall|i: int| #[trigger] final(self).spec_get(i) == if i == index {
                Some(value)
            } else {
                old(self).spec_get(i)
            },
    {
        while self.values.len() <= index
            invariant
                index < usize::MAX,
                old(self)@.len() <= self@.len(),
                forall|i: int| #[trigger] lookup(self.values@, i) == lookup(old(self).values@, i),
            decreases index + 1 - self.values.len(),
        {
            let ghost before = self.values@;
            self.values.push(None);
            proof {
                assert forall|i: int| #[trigger] lookup(self.values@, i) == lookup(old(self).values@, i) by {
                    assert(lookup(before, i) == lookup(old(self).values@, i));
                    if 0 <= i < before.len() {
                        assert(self.values@[i] == before[i]);
                    }
                }
            }
        }
        let ghost before = self.values@;
        self.values.set(index, Some(value));
        proof {
            assert forall|i: int| #[trigger] self.spec_get(i) == if i == index {
                Some(value)
            } else {
                old(self).spec_get(i)
            } by {
                assert(lookup(before, i) == lookup(old(self).values@, i));
            }
        }
    }

    /// Takes the value at `index` out of the array.
    pub fn remove(&mut self, index: usize) -> (r: Option<V>)
        ensures
            r == old(self).spec_get(index as int),
            r is None ==> final(self)@ == old(self)@,
            forall|i: int| #[trigger] final(self).spec_get(i) == if i == index {
                None
            } else {
                old(self).spec_get(i)
            },
    {
        if index < self.values.len() {
            let mut taken: Option<V> = None;
            std::mem::swap(&mut self.values[index], &mut taken);
            proof {
                if taken is None {
                    assert(self.values@ =~= old(self).values@);
                }
            }
            taken
        } else {
            None
        }
    }

    pub fn clear(&mut self)
        ensures
            forall|i: int| #[trigger] final(self).spec_get(i) is None,
    {
        self.values.clear();
    }
}

/// The abstract content of a sparse set: values in dense order with the
/// index of each.
pub struct SparseSetView<V> {
    pub dense: Seq<V>,
    pub indices: Seq<usize>,
}

impl<V> SparseSetView<V> {
    pub open spec fn len(self) -> nat {
        self.dense.len()
    }

    pub open spec fn contains(self, index: usize) -> bool {
        self.indices.contains(index)
    }

    /// The dense position of an index that the set contains.
    pub open spec fn position(self, index: usize) -> int {
        choose|k: int| 0 <= k < self.indices.len() && self.indices[k] == index
    }
}

/// A map from small integers to values that keeps its values densely packed.
#[derive(Debug)]
pub struct SparseSet<V> {
    dense: Vec<V>,
    indices: Vec<usize>,
    sparse: SparseArray<NonMaxUsize>,
}

impl<V> View for SparseSet<V> {
    type V = SparseSetView<V>;

    closed spec fn view(&self) -> SparseSetView<V> {
        SparseSetView { dense: self.dense@, indices: self.indices@ }
    }
}

impl<V> SparseSet<V> {
    pub closed spec fn wf(&self) -> bool {
        &&& self.dense.len() == self.indices.len()
        &&& forall|k: int| 0 <= k < self.indices.len() ==> #[trigger] self.indices@[k] < usize::MAX
        &&& forall|k: int| 0 <= k < self.indices.len() ==> points_at(#[trigger] self.sparse.spec_get(self.indices@[k] as int), k)
        &&& forall|i: int| points_back(#[trigger] self.sparse.spec_get(i), self.indices@, i)
    }

    /// Distinct positions hold distinct indices.
    pub proof fn lemma_distinct(&self)
        requires
            self.wf(),
        ensures
            self@.dense.len() == self@.indices.len(),
            forall|j: int, k: int| 0 <= j < self@.indices.len() && 0 <= k < self@.indices.len() && j != k
                ==> self@.indices[j] != self@.indices[k],
            forall|k: int| 0 <= k < self@.indices.len() ==> self@.position(#[trigger] self@.indices[k]) == k,
    {
        assert forall|j: int, k: int| 0 <= j < self@.indices.len() && 0 <= k < self@.indices.len() && j != k
            implies self@.indices[j] != self@.indices[k] by {
            let a = self.sparse.spec_get(self.indices@[j] as int);
            let b = self.sparse.spec_get(self.indices@[k] as int);
        }
        assert forall|k: int| 0 <= k < self@.indices.len() implies self@.position(#[trigger] self@.indices[k]) == k by {
            let p = self@.position(self@.indices[k]);
            assert(self@.indices.contains(self@.indices[k]));
            let a = self.sparse.spec_get(self.indices@[p] as int);
            let b = self.sparse.spec_get(self.indices@[k] as int);
        }
    }

    pub fn new() -> (r: SparseSet<V>)
        ensures
            r.wf(),
            r@.dense.len() == 0,
            r@.indices.len() == 0,
    {
        SparseSet { dense: Vec::new(), indices: Vec::new(), sparse: SparseArray::new() }
    }

    pub fn with_capacity(capacity: usize) -> (r: SparseSet<V>)
        ensures
            r.wf(),
            r@.dense.len() == 0,
            r@.indices.len() == 0,
    {
        SparseSet {
            dense: Vec::with_capacity(capacity),
            indices: Vec::with_capacity(capacity),
            sparse: SparseArray::new(),
        }
    }

    pub fn len(&self) -> (r: usize)
        ensures
            r == self@.dense.len(),
    {
        self.dense.len()
    }

    pub fn is_empty(&self) -> (r: bool)
        ensures
            r == (self@.dense.len() == 0),
    {
        self.dense.len() == 0
    }

    /// The position of `index` in the dense order.
    pub fn dense_index(&self, index: usize) -> (r: Option<usize>)
        requires
            self.wf(),
        ensures
            r is Some <==> self@.contains(index),
            r matches Some(k) ==> k < self@.len() && self@.indices[k as int] == index && k == self@.position(index),
    {
        proof {
            self.lemma_distinct();
        }
        match self.sparse.get(index) {
            Some(n) => {
                let k = n.get();
                Some(k)
            },
            None => {
                proof {
                    if self@.contains(index) {
                        let k = choose|k: int| 0 <= k < self.indices.len() && self.indices@[k] == index;
                        assert(self.sparse.spec_get(self.indices@[k] as int) is Some);
                    }
                }
                None
            },
        }
    }

    pub fn contains(&self, index: usize) -> (r: bool)
        requires
            self.wf(),
        ensures
            r == self@.contains(index),
    {
        self.dense_index(index).is_some()
    }

    pub fn get(&self, index: usize) -> (r: Option<&V>)
        requires
            self.wf(),
        ensures
            r is Some <==> self@.contains(index),
            r matches Some(v) ==> *v == self@.dense[self@.position(index)],
    {
        match self.dense_index(index) {
            Some(k) => Some(&self.dense[k]),
            None => None,
        }
    }

    /// Stores `value` under `index`: in place if present, else appended.
    pub fn insert(&mut self, index: usize, value: V)
        requires
            old(self).wf(),
            index < usize::MAX,
            old(self)@.len() < usize::MAX,
        ensures
            final(self).wf(),
            old(self)@.contains(index) ==> final(self)@ == (SparseSetView {
                dense: old(self)@.dense.update(old(self)@.position(index), value),
                indices: old(self)@.indices,
            }),
            !old(self)@.contains(index) ==> final(self)@ == (SparseSetView {
                dense: old(self)@.dense.push(value),
                indices: old(self)@.indices.push(index),
            }),
    {
        match self.dense_index(index) {
            Some(k) => {
                self.dense.set(k, value);
            },
            None => {
                let k = self.dense.len();
                let n = NonMaxUsize::new(k).unwrap();
                self.sparse.insert(index, n);
                self.indices.push(index);
                self.dense.push(value);
                proof {
                    assert forall|j: int| 0 <= j < self.indices.len() implies points_at(#[trigger] self.sparse.spec_get(self.indices@[j] as int), j) by {
                        if j < k {
                            assert(old(self).sparse.spec_get(old(self).indices@[j] as int) is Some);
                            assert(old(self).indices@[j] != index);
                        }
                    }
                }
            },
        }
    }

    /// Takes the value under `index` out; the last value moves into its place.
    pub fn remove(&mut self, index: usize) -> (r: Option<V>)
        requires
            old(self).wf(),
        ensures
            final(self).wf(),
            r is Some <==> old(self)@.contains(index),
            r matches Some(v) ==> {
                let k = old(self)@.position(index);
                &&& v == old(self)@.dense[k]
                &&& final(self)@ == (SparseSetView {
                    dense: swap_remove_seq(old(self)@.dense, k),
                    indices: swap_remove_seq(old(self)@.indices, k),
                })
            },
            r is None ==> final(self)@ == old(self)@,
    {
        proof {
            self.lemma_distinct();
        }
        match self.sparse.remove(index) {
            Some(n) => {
                let k = n.get();
                let last = self.dense.len() - 1;
                let value = self.dense.swap_remove(k);
                self.indices.swap_remove(k);
                if k < last {
                    let moved = self.indices[k];
                    self.sparse.insert(moved, n);
                }
                proof {
                    assert(old(self)@.position(index) == k);
                    assert forall|j: int| 0 <= j < self.indices.len() implies points_at(#[trigger] self.sparse.spec_get(self.indices@[j] as int), j) by {
                        if j == k {
                        } else {
                            assert(self.indices@[j] == old(self).indices@[j]);
                            assert(old(self).indices@[j] != index);
                            assert(old(self).indices@[j] != old(self).indices@[last as int]);
                        }
                    }
                    assert forall|i: int| points_back(#[trigger] self.sparse.spec_get(i), self.indices@, i) by {
                        if k < last && i == self.indices@[k as int] {
                        } else if self.sparse.spec_get(i) is Some {
                            let m = self.sparse.spec_get(i)->Some_0;
                            assert(old(self).sparse.spec_get(i) == Some(m));
                            if nonmax_value(m) == last {
                                assert(old(self).indices@[last as int] == i);
                                if k < last {
                                    assert(self.indices@[k as int] == i);
                                }
                            }
                        }
                    }
                }
                Some(value)
            },
            None => {
                proof {
                    if self@.contains(index) {
                        let k = choose|k: int| 0 <= k < self.indices.len() && self.indices@[k] == index;
                        assert(old(self).sparse.spec_get(old(self).indices@[k] as int) is Some);
                    }
                }
                None
            },
        }
    }

    pub fn clear(&mut self)
        ensures
            final(self).wf(),
            final(self)@.dense.len() == 0,
            final(self)@.indices.len() == 0,
    {
        self.dense.clear();
        self.indices.clear();
        self.sparse.clear();
    }

    /// The indices in dense order.
    pub fn indices(&self) -> (r: &Vec<usize>)
        ensures
            r@ == self@.indices,
    {
        &self.indices
    }

    /// The values in dense order.
    pub fn values(&self) -> (r: &Vec<V>)
        ensures
            r@ == self@.dense,
    {
        &self.dense
    }
}

/// A sparse slot that is empty or names a dense row of the entity index `i`.
pub open spec fn row_points_back(o: Option<TableRow>, entities: Seq<Entity>, i: int) -> bool {
    match o {
        Some(row) => row.0 < entities.len() && entities[row.0 as int].index == i,
        None => true,
    }
}

/// The abstract content of a sparse-set column: values in dense order, the
/// entity of each, and the dense row of each entity index.
pub struct ComponentSparseSetView {
    pub column: ColumnView,
    pub entities: Seq<Entity>,
    pub sparse: Seq<Option<TableRow>>,
}

impl ComponentSparseSetView {
    /// Dense rows and the sparse array point at each other, and every value
    /// has two ticks and the size of the layout.
    pub open spec fn wf(self) -> bool {
        &&& self.entities.len() <= u32::MAX
        &&& forall|r: int| 0 <= r < self.entities.len() ==> (#[trigger] self.entities[r]).index < u32::MAX
        &&& self.column.values.len() == self.entities.len()
        &&& self.column.added.len() == self.entities.len()
        &&& self.column.changed.len() == self.entities.len()
        &&& forall|r: int| 0 <= r < self.entities.len() ==> (#[trigger] self.column.values[r]).len() == self.column.layout.size
        &&& forall|r: int| 0 <= r < self.entities.len() ==> lookup(self.sparse, (#[trigger] self.entities[r]).index as int) == Some(TableRow(r as u32))
        &&& forall|i: int| row_points_back(#[trigger] lookup(self.sparse, i), self.entities, i)
    }

    /// The dense row of an entity index, if it has one.
    pub open spec fn row_of(self, index: u32) -> Option<TableRow> {
        lookup(self.sparse, index as int)
    }

    /// The set stores a value for exactly this entity.
    pub open spec fn has(self, e: Entity) -> bool {
        self.row_of(e.index) matches Some(row) && self.entities[row.0 as int] == e
    }

    pub open spec fn len(self) -> nat {
        self.entities.len()
    }
}

/// The values of one sparse-class component, with O(1) insert, lookup and
/// removal by entity.
#[derive(Debug)]
pub struct ComponentSparseSet {
    dense: Column,
    entities: Vec<Entity>,
    sparse: SparseArray<TableRow>,
}

impl View for ComponentSparseSet {
    type V = ComponentSparseSetView;

    closed spec fn view(&self) -> ComponentSparseSetView {
        ComponentSparseSetView { column: self.dense@, entities: self.entities@, sparse: self.sparse@ }
    }
}

impl ComponentSparseSet {
    pub closed spec fn wf(&self) -> bool {
        &&& self.dense.wf()
        &&& self@.wf()
    }

    pub proof fn lemma_wf(&self)
        requires
            self.wf(),
        ensures
            self@.wf(),
    {
    }

    pub fn new(component_info: &ComponentInfo, capacity: usize) -> (r: ComponentSparseSet)
        ensures
            r.wf(),
            r@.len() == 0,
            r@.column.layout == component_info.descriptor.layout,
            forall|i: int| lookup(r@.sparse, i) is None,
    {
        let r = ComponentSparseSet {
            dense: Column::with_capacity(component_info.layout(), capacity),
            entities: Vec::with_capacity(capacity),
            sparse: SparseArray::new(),
        };
        proof {
            assert forall|i: int| #[trigger] lookup(r@.sparse, i) is None by {
                assert(r.sparse.spec_get(i) is None);
            }
        }
        r
    }

    pub fn len(&self) -> (r: usize)
        requires
            self.wf(),
        ensures
            r == self@.len(),
    {
        self.entities.len()
    }

    pub fn is_empty(&self) -> (r: bool)
        requires
            self.wf(),
        ensures
            r == (self@.len() == 0),
    {
        self.entities.len() == 0
    }

    /// The dense row of an entity that the set holds.
    fn dense_row(&self, entity: Entity) -> (r: Option<TableRow>)
        requires
            self.wf(),
        ensures
            r is Some <==> self@.has(entity),
            r matches Some(row) ==> self@.row_of(entity.index) == Some(row) && row.0 < self@.len(),
    {
        match self.sparse.get(entity.index as usize) {
            Some(row) => {
                if self.entities[row.as_usize()] == entity {
                    Some(*row)
                } else {
                    None
                }
            },
            None => None,
        }
    }

    /// Whether the set holds a value for this entity.
    pub fn contains(&self, entity: Entity) -> (r: bool)
        requires
            self.wf(),
        ensures
            r == self@.has(entity),
    {
        self.dense_row(entity).is_some()
    }

    /// The value of an entity.
    pub fn get(&self, entity: Entity) -> (r: Option<&Vec<u8>>)
        requires
            self.wf(),
        ensures
            r is Some <==> self@.has(entity),
            r matches Some(v) ==> v@ == self@.column.values[self@.row_of(entity.index)->Some_0.0 as int],
    {
        match self.dense_row(entity) {
            Some(row) => Some(self.dense.data_at(row)),
            None => None,
        }
    }

    /// The ticks of an entity's value.
    pub fn get_ticks(&self, entity: Entity) -> (r: Option<ComponentTicks>)
        requires
            self.wf(),
        ensures
            r is Some <==> self@.has(entity),
            r matches Some(t) ==> t.added == self@.column.added[self@.row_of(entity.index)->Some_0.0 as int]
                && t.changed == self@.column.changed[self@.row_of(entity.index)->Some_0.0 as int],
    {
        match self.dense_row(entity) {
            Some(row) => Some(self.dense.get_ticks(row)),
            None => None,
        }
    }

    /// Stores the value of an entity: in place, with a new change tick, where
    /// its index already has a row; else appended with both ticks set.
    pub fn insert(&mut self, entity: Entity, value: Vec<u8>, change_tick: Tick)
        requires
            old(self).wf(),
            value@.len() == old(self)@.column.layout.size,
            old(self)@.len() < u32::MAX || old(self)@.has(entity),
            !old(self)@.has(entity) ==> old(self)@.column.can_push(),
            old(self)@.row_of(entity.index) is Some ==> old(self)@.has(entity),
            entity.index < u32::MAX,
        ensures
            final(self).wf(),
            final(self)@.has(entity),
            final(self)@.column.layout == old(self)@.column.layout,
            ({
                let row = final(self)@.row_of(entity.index)->Some_0.0 as int;
                &&& final(self)@.column.values[row] == value@
                &&& final(self)@.column.changed[row] == change_tick
                &&& !old(self)@.has(entity) ==> final(self)@.column.added[row] == change_tick
                &&& old(self)@.has(entity) ==> row == old(self)@.row_of(entity.index)->Some_0.0
                    && final(self)@.column.added[row] == old(self)@.column.added[row]
            }),
            !old(self)@.has(entity) ==> {
                &&& final(self)@.len() == old(self)@.len() + 1
                &&& final(self)@.entities == old(self)@.entities.push(entity)
            },
            old(self)@.has(entity) ==> final(self)@.len() == old(self)@.len(),
            old(self)@.row_of(entity.index) is None <==> !old(self)@.has(entity),
            forall|e: Entity| e.index != entity.index ==> (old(self)@.has(e) <==> final(self)@.has(e)),
            forall|e: Entity| e != entity ==> (old(self)@.has(e) <==> final(self)@.has(e)),
    {
        match self.sparse.get(entity.index as usize) {
            Some(row) => {
                let row = *row;
                let _ = self.dense.replace(row, value, change_tick);
                self.entities.set(row.as_usize(), entity);
                proof {
                    assert forall|r: int| 0 <= r < self.entities.len() implies lookup(self.sparse@, (#[trigger] self.entities@[r]).index as int) == Some(TableRow(r as u32)) by {
                        assert(lookup(old(self).sparse@, old(self).entities@[r].index as int) == Some(TableRow(r as u32)));
                    }
                    assert forall|e: Entity| e.index != entity.index implies (old(self)@.has(e) <==> self@.has(e)) by {
                        if old(self)@.has(e) {
                            let r = old(self)@.row_of(e.index)->Some_0;
                            assert(r != row);
                        }
                        if self@.has(e) {
                            let r = self@.row_of(e.index)->Some_0;
                            assert(r != row);
                        }
                    }
                }
            },
            None => {
                let row = self.entities.len();
                self.dense.push(value, ComponentTicks::new(change_tick));
                self.sparse.insert(entity.index as usize, TableRow(row as u32));
                self.entities.push(entity);
                proof {
                    assert forall|r: int| 0 <= r < self.entities.len() implies lookup(self.sparse@, (#[trigger] self.entities@[r]).index as int) == Some(TableRow(r as u32)) by {
                        if r < row {
                            assert(lookup(old(self).sparse@, old(self).entities@[r].index as int) == Some(TableRow(r as u32)));
                            assert(self.sparse.spec_get(self.entities@[r].index as int) == old(self).sparse.spec_get(self.entities@[r].index as int));
                        } else {
                            assert(self.sparse.spec_get(entity.index as int) == Some(TableRow(row as u32)));
                        }
                    }
                    assert forall|i: int| row_points_back(#[trigger] lookup(self.sparse@, i), self.entities@, i) by {
                        assert(self.sparse.spec_get(i) == lookup(self.sparse@, i));
                        if i != entity.index {
                            assert(old(self).sparse.spec_get(i) == lookup(old(self).sparse@, i));
                        }
                    }
                    assert forall|r: int| 0 <= r < self.entities.len() implies (#[trigger] self@.column.values[r]).len() == self@.column.layout.size by {
                        if r < row {
                            assert(self@.column.values[r] == old(self)@.column.values[r]);
                        }
                    }
                    assert(self.sparse.spec_get(entity.index as int) == Some(TableRow(row as u32)));
                    assert forall|e: Entity| e.index != entity.index implies (old(self)@.has(e) <==> self@.has(e)) by {
                        assert(self.sparse.spec_get(e.index as int) == old(self).sparse.spec_get(e.index as int));
                        if old(self)@.has(e) {
                            let r = old(self)@.row_of(e.index)->Some_0;
                            assert(self.entities@[r.0 as int] == old(self).entities@[r.0 as int]);
                        }
                    }
                }
            },
        }
    }

    /// Takes the value stored under an entity's index out of the set; the
    /// last row moves into its place.
    pub fn remove_and_forget(&mut self, entity: Entity) -> (r: Option<Vec<u8>>)
        requires
            old(self).wf(),
        ensures
            final(self).wf(),
            r is Some <==> old(self)@.has(entity),
            r is Some ==> final(self)@.row_of(entity.index) is None,
            !final(self)@.has(entity),
            final(self)@.column.layout == old(self)@.column.layout,
            r matches Some(v) ==> {
                let row = old(self)@.row_of(entity.index)->Some_0.0 as int;
                &&& v@ == old(self)@.column.values[row]
                &&& final(self)@.entities == swap_remove_seq(old(self)@.entities, row)
                &&& final(self)@.column == old(self)@.column.swap_remove(row)
            },
            r is None ==> final(self)@ == old(self)@,
            forall|e: Entity| e.index != entity.index ==> (old(self)@.has(e) <==> final(self)@.has(e)),
            forall|e: Entity| e != entity ==> (old(self)@.has(e) <==> final(self)@.has(e)),
    {
        if self.dense_row(entity).is_none() {
            return None;
        }
        match self.sparse.remove(entity.index as usize) {
            Some(row) => {
                let last = self.entities.len() - 1;
                self.entities.swap_remove(row.as_usize());
                let (value, _) = self.dense.swap_remove_and_forget_unchecked(row);
                if row.as_usize() < last {
                    let moved = self.entities[row.as_usize()];
                    self.sparse.insert(moved.index as usize, row);
                }
                proof {
                    let ov = old(self)@;
                    assert(ov.wf());
                    assert forall|r: int| 0 <= r < self.entities.len() implies lookup(self.sparse@, (#[trigger] self.entities@[r]).index as int) == Some(TableRow(r as u32)) by {
                        assert(self.sparse.spec_get(self.entities@[r].index as int) == lookup(self.sparse@, self.entities@[r].index as int));
                        if r == row.0 {
                            assert(self.entities@[r] == ov.entities[last as int]);
                        } else {
                            assert(self.entities@[r] == ov.entities[r]);
                            assert(lookup(ov.sparse, ov.entities[r].index as int) == Some(TableRow(r as u32)));
                            assert(ov.entities[r].index != entity.index);
                            if row.0 < last {
                                assert(lookup(ov.sparse, ov.entities[last as int].index as int) == Some(TableRow(last as u32)));
                                assert(ov.entities[r].index != ov.entities[last as int].index);
                            }
                        }
                    }
                    assert forall|i: int| row_points_back(#[trigger] lookup(self.sparse@, i), self.entities@, i) by {
                        assert(self.sparse.spec_get(i) == lookup(self.sparse@, i));
                        assert(old(self).sparse.spec_get(i) == lookup(ov.sparse, i));
                        assert(row_points_back(lookup(ov.sparse, i), ov.entities, i));
                        if row.0 < last && i == self.entities@[row.0 as int].index {
                        } else if i != entity.index && lookup(ov.sparse, i) is Some {
                            let rw = lookup(ov.sparse, i)->Some_0;
                            if rw.0 == last {
                                assert(ov.entities[last as int].index == i);
                                if row.0 < last {
                                    assert(self.entities@[row.0 as int].index == i);
                                }
                            }
                        }
                    }
                    assert forall|r: int| 0 <= r < self.entities.len() implies (#[trigger] self@.column.values[r]).len() == self@.column.layout.size by {
                        if r == row.0 {
                            assert(self@.column.values[r] == ov.column.values[last as int]);
                        } else {
                            assert(self@.column.values[r] == ov.column.values[r]);
                        }
                    }
                    assert(self.sparse.spec_get(entity.index as int) == lookup(self.sparse@, entity.index as int));
                    assert forall|e: Entity| e.index != entity.index implies (ov.has(e) <==> self@.has(e)) by {
                        assert(self.sparse.spec_get(e.index as int) == lookup(self.sparse@, e.index as int));
                        assert(old(self).sparse.spec_get(e.index as int) == lookup(ov.sparse, e.index as int));
                        assert(row_points_back(lookup(ov.sparse, e.index as int), ov.entities, e.index as int));
                        if ov.has(e) {
                            let r = ov.row_of(e.index)->Some_0;
                            assert(ov.entities[r.0 as int] == e);
                            if r.0 == last {
                                assert(row.0 != last);
                                assert(self.entities@[row.0 as int] == e);
                            } else {
                                assert(r.0 != row.0);
                                assert(self.entities@[r.0 as int] == e);
                            }
                        }
                        if self@.has(e) {
                            let r = self@.row_of(e.index)->Some_0;
                            assert(self.entities@[r.0 as int] == e);
                            if row.0 < last && e.index == self.entities@[row.0 as int].index {
                                assert(ov.entities[last as int] == e);
                                assert(lookup(ov.sparse, ov.entities[last as int].index as int) == Some(TableRow(last as u32)));
                            } else {
                                assert(lookup(ov.sparse, e.index as int) == Some(r));
                                assert(r.0 != row.0);
                                assert(ov.entities[r.0 as int] == e);
                            }
                        }
                    }
                }
                Some(value)
            },
            None => {
                None
            },
        }
    }

    /// Clamps every stored tick to at most `MAX_CHANGE_AGE` behind `change_tick`.
    pub fn check_change_ticks(&mut self, change_tick: Tick)
        requires
            old(self).wf(),
        ensures
            final(self).wf(),
            final(self)@.entities == old(self)@.entities,
            final(self)@.sparse == old(self)@.sparse,
            final(self)@.column.values == old(self)@.column.values,
            final(self)@.column.layout == old(self)@.column.layout,
            final(self)@.column.ticks_recent(change_tick.tick),
            signals_kept(old(self)@.column, final(self)@.column, change_tick.tick),
    {
        self.dense.check_change_ticks(change_tick);
        proof {
            self.dense.lemma_sizes();
        }
    }

    /// Removes and releases the value stored under an entity's index;
    /// returns whether there was one.
    pub fn remove(&mut self, entity: Entity) -> (r: bool)
        requires
            old(self).wf(),
        ensures
            final(self).wf(),
            r == old(self)@.has(entity),
            r ==> final(self)@.row_of(entity.index) is None,
            !final(self)@.has(entity),
            final(self)@.column.layout == old(self)@.column.layout,
            r ==> {
                let row = old(self)@.row_of(entity.index)->Some_0.0 as int;
                &&& final(self)@.entities == swap_remove_seq(old(self)@.entities, row)
                &&& final(self)@.column == old(self)@.column.swap_remove(row)
                &&& final(self)@.len() == old(self)@.len() - 1
            },
            !r ==> final(self)@ == old(self)@,
            forall|e: Entity| e.index != entity.index ==> (old(self)@.has(e) <==> final(self)@.has(e)),
            forall|e: Entity| e != entity ==> (old(self)@.has(e) <==> final(self)@.has(e)),
    {
        self.remove_and_forget(entity).is_some()
    }
}

/// The sparse-set columns of a world, one per sparse-class component.
#[derive(Debug)]
pub struct SparseSets {
    sets: SparseSet<ComponentSparseSet>,
}

impl View for SparseSets {
    type V = Map<usize, ComponentSparseSetView>;

    closed spec fn view(&self) -> Map<usize, ComponentSparseSetView> {
        Map::new(|i: usize| self.sets@.contains(i), |i: usize| self.sets@.dense[self.sets@.position(i)]@)
    }
}

impl SparseSets {
    pub closed spec fn wf(&self) -> bool {
        &&& self.sets.wf()
        &&& forall|k: int| 0 <= k < self.sets@.len() ==> (#[trigger] self.sets@.dense[k]).wf()
    }

    /// Every column of the registry is well formed.
    pub proof fn lemma_wf(&self)
        requires
            self.wf(),
        ensures
            forall|i: usize| #[trigger] self@.contains_key(i) ==> self@[i].wf(),
    {
        assert forall|i: usize| #[trigger] self@.contains_key(i) implies self@[i].wf() by {
            let k = self.sets@.position(i);
            assert(self.sets@.indices.contains(i));
            assert(0 <= k < self.sets@.len());
            self.sets@.dense[k].lemma_wf();
        }
    }

    pub fn new() -> (r: SparseSets)
        ensures
            r.wf(),
            r@ == Map::<usize, ComponentSparseSetView>::empty(),
    {
        let r = SparseSets { sets: SparseSet::new() };
        proof {
            assert(r@ =~= Map::<usize, ComponentSparseSetView>::empty());
        }
        r
    }

    /// The number of sparse-set columns.
    pub fn len(&self) -> (r: usize)
        requires
            self.wf(),
        ensures
            r == self@.dom().len(),
    {
        proof {
            self.lemma_dom();
        }
        self.sets.len()
    }

    pub fn is_empty(&self) -> (r: bool)
        requires
            self.wf(),
        ensures
            r == (self@.dom().len() == 0),
    {
        self.len() == 0
    }

    proof fn lemma_dom(&self)
        requires
            self.wf(),
        ensures
            self@.dom() == self.sets@.indices.to_set(),
            self@.dom().len() == self.sets@.len(),
    {
        self.sets.lemma_distinct();
        assert(self@.dom() =~= self.sets@.indices.to_set());
        assert(self.sets@.indices.no_duplicates());
        self.sets@.indices.unique_seq_to_set();
    }

    pub fn contains(&self, component_id: ComponentId) -> (r: bool)
        requires
            self.wf(),
        ensures
            r == self@.contains_key(component_id.0),
    {
        self.sets.contains(component_id.0)
    }

    /// The column of a sparse-class component.
    pub fn get(&self, component_id: ComponentId) -> (r: Option<&ComponentSparseSet>)
        requires
            self.wf(),
        ensures
            r is Some <==> self@.contains_key(component_id.0),
            r matches Some(c) ==> c@ == self@[component_id.0] && c.wf(),
    {
        match self.sets.dense_index(component_id.0) {
            Some(k) => Some(&self.sets.dense[k]),
            None => None,
        }
    }

    /// Makes the column of a component if it has none yet.
    pub fn get_or_insert(&mut self, component_info: &ComponentInfo)
        requires
            old(self).wf(),
            component_info.id.0 < usize::MAX,
            old(self)@.dom().len() < usize::MAX,
        ensures
            final(self).wf(),
            old(self)@.contains_key(component_info.id.0) ==> final(self)@ == old(self)@,
            !old(self)@.contains_key(component_info.id.0) ==> {
                &&& final(self)@.dom() == old(self)@.dom().insert(component_info.id.0)
                &&& forall|i: usize| #[trigger] old(self)@.contains_key(i) ==> final(self)@[i] == old(self)@[i]
                &&& final(self)@[component_info.id.0].len() == 0
                &&& final(self)@[component_info.id.0].column.layout == component_info.descriptor.layout
                &&& forall|e: Entity| !(#[trigger] final(self)@[component_info.id.0].has(e))
            },
    {
        proof {
            self.lemma_dom();
            self.sets.lemma_distinct();
        }
        if !self.sets.contains(component_info.id.0) {
            let set = ComponentSparseSet::new(component_info, 0);
            self.sets.insert(component_info.id.0, set);
            proof {
                self.sets.lemma_distinct();
                let i0 = component_info.id.0;
                assert forall|i: usize| self.sets@.indices.contains(i) <==> (old(self).sets@.indices.contains(i) || i == i0) by {
                    if self.sets@.indices.contains(i) {
                        let j = choose|j: int| 0 <= j < self.sets@.indices.len() && self.sets@.indices[j] == i;
                        if j < old(self).sets@.indices.len() {
                            assert(old(self).sets@.indices[j] == i);
                        }
                    }
                    if old(self).sets@.indices.contains(i) {
                        let j = choose|j: int| 0 <= j < old(self).sets@.indices.len() && old(self).sets@.indices[j] == i;
                        assert(self.sets@.indices[j] == i);
                    }
                    if i == i0 {
                        assert(self.sets@.indices[self.sets@.len() - 1] == i);
                    }
                }
                assert(self@.dom() =~= old(self)@.dom().insert(i0));
                assert forall|i: usize| #[trigger] old(self)@.contains_key(i) implies self@[i] == old(self)@[i] by {
                    let k = old(self).sets@.position(i);
                    assert(old(self).sets@.indices.contains(i));
                    assert(self.sets@.indices[k] == i);
                    assert(self.sets@.position(i) == k);
                }
                let k = self.sets@.len() - 1;
                assert(self.sets@.indices[k] == i0);
                assert(self.sets@.position(i0) == k);
                assert forall|e: Entity| !(#[trigger] self@[i0].has(e)) by {
                    assert(lookup(set@.sparse, e.index as int) is None);
                }
            }
        }
    }

    /// Clamps every stored tick of every column.
    pub fn check_change_ticks(&mut self, change_tick: Tick)
        requires
            old(self).wf(),
        ensures
            final(self).wf(),
            final(self)@.dom() == old(self)@.dom(),
            forall|c: usize| #[trigger] final(self)@.contains_key(c) ==> {
                &&& final(self)@[c].entities == old(self)@[c].entities
                &&& final(self)@[c].sparse == old(self)@[c].sparse
                &&& final(self)@[c].column.values == old(self)@[c].column.values
                &&& final(self)@[c].column.layout == old(self)@[c].column.layout
                &&& final(self)@[c].column.ticks_recent(change_tick.tick)
                &&& signals_kept(old(self)@[c].column, final(self)@[c].column, change_tick.tick)
            },
    {
        let n = self.sets.dense.len();
        proof {
            assert forall|j: int| 0 <= j < n implies (#[trigger] self.sets.dense@[j]).wf() by {
                assert(self.sets@.dense[j] == self.sets.dense@[j]);
            }
        }
        let mut k: usize = 0;
        while k < n
            invariant
                old(self).wf(),
                self.sets.wf(),
                n == self.sets.dense.len(),
                self.sets.indices == old(self).sets.indices,
                self.sets.sparse == old(self).sets.sparse,
                self.sets.dense.len() == old(self).sets.dense.len(),
                k <= n,
                forall|j: int| 0 <= j < n ==> (#[trigger] self.sets.dense@[j]).wf(),
                forall|j: int| 0 <= j < k ==> {
                    &&& (#[trigger] self.sets.dense@[j])@.entities == old(self).sets.dense@[j]@.entities
                    &&& self.sets.dense@[j]@.sparse == old(self).sets.dense@[j]@.sparse
                    &&& self.sets.dense@[j]@.column.values == old(self).sets.dense@[j]@.column.values
                    &&& self.sets.dense@[j]@.column.layout == old(self).sets.dense@[j]@.column.layout
                    &&& self.sets.dense@[j]@.column.ticks_recent(change_tick.tick)
                    &&& signals_kept(old(self).sets.dense@[j]@.column, self.sets.dense@[j]@.column, change_tick.tick)
                },
                forall|j: int| k <= j < n ==> #[trigger] self.sets.dense@[j] == old(self).sets.dense@[j],
            decreases n - k,
        {
            self.sets.dense[k].check_change_ticks(change_tick);
            k = k + 1;
        }
        proof {
            assert(self.sets@.indices == old(self).sets@.indices);
            assert(self@.dom() =~= old(self)@.dom());
        }
    }

    /// Stores an entity's value in the column of a sparse-class component.
    pub fn insert(&mut self, component_id: ComponentId, entity: Entity, value: Vec<u8>, change_tick: Tick)
        requires
            old(self).wf(),
            old(self)@.contains_key(component_id.0),
            value@.len() == old(self)@[component_id.0].column.layout.size,
            old(self)@[component_id.0].len() < u32::MAX || old(self)@[component_id.0].has(entity),
            !old(self)@[component_id.0].has(entity) ==> old(self)@[component_id.0].column.can_push(),
            old(self)@[component_id.0].row_of(entity.index) is Some ==> old(self)@[component_id.0].has(entity),
            entity.index < u32::MAX,
        ensures
            final(self).wf(),
            final(self)@.dom() == old(self)@.dom(),
            forall|i: usize| #[trigger] final(self)@.contains_key(i) && i != component_id.0 ==> final(self)@[i] == old(self)@[i],
            ({
                let o = old(self)@[component_id.0];
                let n = final(self)@[component_id.0];
                &&& n.has(entity)
                &&& n.column.layout == o.column.layout
                &&& n.column.values[n.row_of(entity.index)->Some_0.0 as int] == value@
                &&& n.column.changed[n.row_of(entity.index)->Some_0.0 as int] == change_tick
                &&& !o.has(entity) ==> n.column.added[n.row_of(entity.index)->Some_0.0 as int] == change_tick
                &&& o.has(entity) ==> n.row_of(entity.index) == o.row_of(entity.index)
                    && n.column.added[n.row_of(entity.index)->Some_0.0 as int] == o.column.added[o.row_of(entity.index)->Some_0.0 as int]
                &&& !o.has(entity) ==> n.len() == o.len() + 1
                &&& o.has(entity) ==> n.len() == o.len()
                &&& o.row_of(entity.index) is None <==> !o.has(entity)
                &&& forall|e: Entity| e.index != entity.index ==> (o.has(e) <==> n.has(e))
                &&& forall|e: Entity| e != entity ==> (o.has(e) <==> n.has(e))
            }),
    {
        proof {
            self.sets.lemma_distinct();
        }
        let k = self.sets.dense_index(component_id.0).unwrap();
        self.sets.dense[k].insert(entity, value, change_tick);
        proof {
            self.sets.lemma_distinct();
            assert(self@.dom() =~= old(self)@.dom());
            assert forall|i: usize| #[trigger] self@.contains_key(i) && i != component_id.0 implies self@[i] == old(self)@[i] by {
                assert(self.sets@.indices.contains(i));
                let j = self.sets@.position(i);
                assert(j != k);
            }
        }
    }

    /// Removes and releases an entity's value from the column of a component.
    pub fn remove(&mut self, component_id: ComponentId, entity: Entity) -> (r: bool)
        requires
            old(self).wf(),
            old(self)@.contains_key(component_id.0),
        ensures
            final(self).wf(),
            final(self)@.dom() == old(self)@.dom(),
            forall|i: usize| #[trigger] final(self)@.contains_key(i) && i != component_id.0 ==> final(self)@[i] == old(self)@[i],
            ({
                let o = old(self)@[component_id.0];
                let n = final(self)@[component_id.0];
                &&& r == o.has(entity)
                &&& n.column.capacity == o.column.capacity
                &&& r ==> n.row_of(entity.index) is None
                &&& !n.has(entity)
                &&& r ==> n.len() == o.len() - 1
                &&& !r ==> n == o
                &&& n.column.layout == o.column.layout
                &&& forall|e: Entity| e.index != entity.index ==> (o.has(e) <==> n.has(e))
                &&& forall|e: Entity| e != entity ==> (o.has(e) <==> n.has(e))
            }),
    {
        proof {
            self.sets.lemma_distinct();
        }
        let k = self.sets.dense_index(component_id.0).unwrap();
        let r = self.sets.dense[k].remove(entity);
        proof {
            self.sets.lemma_distinct();
            assert(self@.dom() =~= old(self)@.dom());
            assert forall|i: usize| #[trigger] self@.contains_key(i) && i != component_id.0 implies self@[i] == old(self)@[i] by {
                assert(self.sets@.indices.contains(i));
                let j = self.sets@.position(i);
                assert(j != k);
            }
        }
        r
    }
}

} // verus!
