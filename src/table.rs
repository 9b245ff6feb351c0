use vstd::prelude::*;

use crate::blob_vec::{swap_remove_seq, BlobVec};
use crate::component::{ComponentId, Components, Layout};
use crate::entity::Entity;
use crate::tick::{newer_than, tick_distance, ComponentTicks, Tick, MAX_CHANGE_AGE};

verus! {

/// A dense table identifier; zero names the table without columns.
#[derive(Clone, Copy, Debug, PartialEq, Eq, Structural)]
pub struct TableId(pub u32);

impl TableId {
    pub fn from_u32(index: u32) -> (r: TableId)
        ensures
            r.0 == index,
    {
        TableId(index)
    }

    pub fn from_usize(index: usize) -> (r: TableId)
        requires
            index <= u32::MAX,
        ensures
            r.0 == index,
    {
        TableId(index as u32)
    }

    pub fn as_u32(self) -> (r: u32)
        ensures
            r == self.0,
    {
        self.0
    }

    pub fn as_usize(self) -> (r: usize)
        ensures
            r == self.0,
    {
        self.0 as usize
    }

    /// The table without columns.
    pub fn empty() -> (r: TableId)
        ensures
            r.0 == 0,
    {
        TableId(0)
    }

    pub fn invalid() -> (r: TableId)
        ensures
            r.0 == u32::MAX,
    {
        TableId(u32::MAX)
    }
}

/// A row of a table.
#[derive(Clone, Copy, Debug, PartialEq, Eq, Structural)]
pub struct TableRow(pub u32);

impl TableRow {
    pub fn from_u32(index: u32) -> (r: TableRow)
        ensures
            r.0 == index,
    {
        TableRow(index)
    }

    pub fn from_usize(index: usize) -> (r: TableRow)
        requires
            index <= u32::MAX,
        ensures
            r.0 == index,
    {
        TableRow(index as u32)
    }

    pub fn as_usize(self) -> (r: usize)
        ensures
            r == self.0,
    {
        self.0 as usize
    }

    pub fn as_u32(self) -> (r: u32)
        ensures
            r == self.0,
    {
        self.0
    }

    pub fn invalid() -> (r: TableRow)
        ensures
            r.0 == u32::MAX,
    {
        TableRow(u32::MAX)
    }
}

/// The abstract content of a column: one value and two ticks per row.
pub struct ColumnView {
    pub values: Seq<Seq<u8>>,
    pub added: Seq<Tick>,
    pub changed: Seq<Tick>,
    pub layout: Layout,
    /// The number of values the column has room for.
    pub capacity: nat,
}

impl ColumnView {
    pub open spec fn len(self) -> nat {
        self.values.len()
    }

    /// The column without the row `i`, its last row taking its place.
    pub open spec fn swap_remove(self, i: int) -> ColumnView {
        ColumnView {
            values: swap_remove_seq(self.values, i),
            added: swap_remove_seq(self.added, i),
            changed: swap_remove_seq(self.changed, i),
            layout: self.layout,
            capacity: self.capacity,
        }
    }

    /// The column with one more row.
    pub open spec fn push(self, value: Seq<u8>, ticks: ComponentTicks) -> ColumnView {
        ColumnView {
            values: self.values.push(value),
            added: self.added.push(ticks.added),
            changed: self.changed.push(ticks.changed),
            layout: self.layout,
            capacity: self.pushed_capacity(),
        }
    }

    /// The capacity after one more value: doubled, or one, when full.
    pub open spec fn pushed_capacity(self) -> nat {
        if self.len() < self.capacity {
            self.capacity
        } else {
            self.capacity + if self.capacity >= 1 { self.capacity } else { 1 }
        }
    }

    /// One more value fits without the capacity overflowing a `usize`,
    /// which would be fatal.
    pub open spec fn can_push(self) -> bool {
        self.len() < self.capacity || self.pushed_capacity() <= usize::MAX
    }

    /// Every stored tick is at most `MAX_CHANGE_AGE` behind `now`.
    pub open spec fn ticks_recent(self, now: u32) -> bool {
        &&& forall|i: int| 0 <= i < self.added.len() ==> tick_distance(now, #[trigger] self.added[i].tick) <= MAX_CHANGE_AGE
        &&& forall|i: int| 0 <= i < self.changed.len() ==> tick_distance(now, #[trigger] self.changed[i].tick) <= MAX_CHANGE_AGE
    }
}

/// A scan left every stored tick's change signal, seen from `now`, as it
/// was.
pub open spec fn signals_kept(o: ColumnView, n: ColumnView, now: u32) -> bool {
    &&& n.added.len() == o.added.len()
    &&& n.changed.len() == o.changed.len()
    &&& forall|i: int, last_run: u32| 0 <= i < o.added.len()
        ==> #[trigger] newer_than(n.added[i].tick, last_run, now) == newer_than(o.added[i].tick, last_run, now)
    &&& forall|i: int, last_run: u32| 0 <= i < o.changed.len()
        ==> #[trigger] newer_than(n.changed[i].tick, last_run, now) == newer_than(o.changed[i].tick, last_run, now)
}

/// The zeroed bytes of a row that is still to be initialized.
pub open spec fn zeroed(size: nat) -> Seq<u8> {
    Seq::new(size, |i: int| 0u8)
}

/// The values of one component in a table or a sparse set, with the tick of
/// each value's insertion and last change.
#[derive(Debug)]
pub struct Column {
    data: BlobVec,
    added_ticks: Vec<Tick>,
    changed_ticks: Vec<Tick>,
}

impl View for Column {
    type V = ColumnView;

    closed spec fn view(&self) -> ColumnView {
        ColumnView {
            values: self.data@,
            added: self.added_ticks@,
            changed: self.changed_ticks@,
            layout: self.data.spec_layout(),
            capacity: self.data.spec_capacity(),
        }
    }
}

impl Column {
    pub closed spec fn wf(&self) -> bool {
        &&& self.data.wf()
        &&& self.added_ticks.len() == self.data@.len()
        &&& self.changed_ticks.len() == self.data@.len()
    }

    /// Every value of the column has the size of its layout.
    pub proof fn lemma_sizes(&self)
        requires
            self.wf(),
        ensures
            self@.added.len() == self@.len(),
            self@.changed.len() == self@.len(),
            forall|i: int| 0 <= i < self@.len() ==> (#[trigger] self@.values[i]).len() == self@.layout.size,
    {
    }

    pub fn with_capacity(layout: Layout, capacity: usize) -> (r: Column)
        ensures
            r.wf(),
            r@.len() == 0,
            r@.added.len() == 0,
            r@.changed.len() == 0,
            r@.layout == layout,
    {
        Column {
            data: BlobVec::new(layout, capacity),
            added_ticks: Vec::new(),
            changed_ticks: Vec::new(),
        }
    }

    pub fn item_layout(&self) -> (r: Layout)
        ensures
            r == self@.layout,
    {
        self.data.layout()
    }

    pub fn len(&self) -> (r: usize)
        ensures
            r == self@.len(),
    {
        self.data.len()
    }

    pub fn is_empty(&self) -> (r: bool)
        ensures
            r == (self@.len() == 0),
    {
        self.data.is_empty()
    }

    /// Writes the value of a freshly allocated row; both ticks become `tick`.
    pub fn initialize(&mut self, row: TableRow, value: Vec<u8>, tick: Tick)
        requires
            old(self).wf(),
            row.0 < old(self)@.len(),
            value@.len() == old(self)@.layout.size,
        ensures
            final(self).wf(),
            final(self)@ == (ColumnView {
                values: old(self)@.values.update(row.0 as int, value@),
                added: old(self)@.added.update(row.0 as int, tick),
                changed: old(self)@.changed.update(row.0 as int, tick),
                layout: old(self)@.layout,
                capacity: old(self)@.capacity,
            }),
    {
        let r = row.as_usize();
        self.data.initialize_unchecked(r, value);
        self.added_ticks.set(r, tick);
        self.changed_ticks.set(r, tick);
    }

    /// Overwrites the value of a row, handing back the old value; the change
    /// tick becomes `change_tick`.
    pub fn replace(&mut self, row: TableRow, value: Vec<u8>, change_tick: Tick) -> (r: Vec<u8>)
        requires
            old(self).wf(),
            row.0 < old(self)@.len(),
            value@.len() == old(self)@.layout.size,
        ensures
            final(self).wf(),
            r@ == old(self)@.values[row.0 as int],
            final(self)@ == (ColumnView {
                values: old(self)@.values.update(row.0 as int, value@),
                changed: old(self)@.changed.update(row.0 as int, change_tick),
                ..old(self)@
            }),
    {
        let r = row.as_usize();
        let prev = self.data.replace_unchecked(r, value);
        self.changed_ticks.set(r, change_tick);
        prev
    }

    /// Sets the change tick of a row.
    pub fn set_changed_tick(&mut self, row: TableRow, tick: Tick)
        requires
            old(self).wf(),
            row.0 < old(self)@.len(),
        ensures
            final(self).wf(),
            final(self)@ == (ColumnView { changed: old(self)@.changed.update(row.0 as int, tick), ..old(self)@ }),
    {
        self.changed_ticks.set(row.as_usize(), tick);
    }

    /// Appends a value with its ticks.
    pub fn push(&mut self, value: Vec<u8>, ticks: ComponentTicks)
        requires
            old(self).wf(),
            value@.len() == old(self)@.layout.size,
            old(self)@.can_push(),
        ensures
            final(self).wf(),
            final(self)@ == old(self)@.push(value@, ticks),
    {
        self.data.push(value);
        self.added_ticks.push(ticks.added);
        self.changed_ticks.push(ticks.changed);
    }

    /// Appends a row still to be initialized, with zero ticks.
    pub fn push_uninit(&mut self)
        requires
            old(self).wf(),
            old(self)@.can_push(),
        ensures
            final(self).wf(),
            final(self)@ == old(self)@.push(
                zeroed(old(self)@.layout.size as nat),
                ComponentTicks { added: Tick { tick: 0 }, changed: Tick { tick: 0 } },
            ),
    {
        self.data.push_uninit();
        self.added_ticks.push(Tick::new(0));
        self.changed_ticks.push(Tick::new(0));
    }

    pub fn reserve_exact(&mut self, additional: usize)
        requires
            old(self).wf(),
            old(self)@.len() + additional <= usize::MAX,
        ensures
            final(self).wf(),
            final(self)@ == (ColumnView {
                capacity: if old(self)@.capacity - old(self)@.len() >= additional {
                    old(self)@.capacity
                } else {
                    (old(self)@.len() + additional) as nat
                },
                ..old(self)@
            }),
    {
        self.data.reserve_exact(additional);
        self.added_ticks.reserve(additional);
        self.changed_ticks.reserve(additional);
    }

    /// The value in a row, if the row exists.
    pub fn get_data(&self, row: TableRow) -> (r: Option<&Vec<u8>>)
        ensures
            r is Some <==> row.0 < self@.len(),
            r matches Some(v) ==> v@ == self@.values[row.0 as int],
    {
        if row.as_usize() < self.data.len() {
            Some(self.data.get_unchecked(row.as_usize()))
        } else {
            None
        }
    }

    /// The value in a row that exists.
    pub fn data_at(&self, row: TableRow) -> (r: &Vec<u8>)
        requires
            row.0 < self@.len(),
        ensures
            r@ == self@.values[row.0 as int],
    {
        self.data.get_unchecked(row.as_usize())
    }

    /// The ticks of a row.
    pub fn get_ticks(&self, row: TableRow) -> (r: ComponentTicks)
        requires
            self.wf(),
            row.0 < self@.len(),
        ensures
            r.added == self@.added[row.0 as int],
            r.changed == self@.changed[row.0 as int],
    {
        ComponentTicks {
            added: self.added_ticks[row.as_usize()],
            changed: self.changed_ticks[row.as_usize()],
        }
    }

    /// Removes a row, the last row taking its place, and releases its value.
    pub fn swap_remove_unchecked(&mut self, row: TableRow)
        requires
            old(self).wf(),
            row.0 < old(self)@.len(),
        ensures
            final(self).wf(),
            final(self)@ == old(self)@.swap_remove(row.0 as int),
    {
        self.data.swap_remove_and_drop_unchecked(row.as_usize());
        self.added_ticks.swap_remove(row.as_usize());
        self.changed_ticks.swap_remove(row.as_usize());
    }

    /// Removes a row, the last row taking its place, and hands back its
    /// value and ticks.
    pub fn swap_remove_and_forget_unchecked(&mut self, row: TableRow) -> (r: (Vec<u8>, ComponentTicks))
        requires
            old(self).wf(),
            row.0 < old(self)@.len(),
        ensures
            final(self).wf(),
            final(self)@ == old(self)@.swap_remove(row.0 as int),
            r.0@ == old(self)@.values[row.0 as int],
            r.1.added == old(self)@.added[row.0 as int],
            r.1.changed == old(self)@.changed[row.0 as int],
    {
        let value = self.data.swap_remove_and_forget_unchecked(row.as_usize());
        let added = self.added_ticks.swap_remove(row.as_usize());
        let changed = self.changed_ticks.swap_remove(row.as_usize());
        (value, ComponentTicks { added, changed })
    }

    pub fn clear(&mut self)
        requires
            old(self).wf(),
        ensures
            final(self).wf(),
            final(self)@.len() == 0,
            final(self)@.layout == old(self)@.layout,
            final(self)@.capacity == old(self)@.capacity,
    {
        self.data.clear();
        self.added_ticks.clear();
        self.changed_ticks.clear();
    }

    /// Clamps every stored tick to at most `MAX_CHANGE_AGE` behind `change_tick`.
    pub fn check_change_ticks(&mut self, change_tick: Tick)
        requires
            old(self).wf(),
        ensures
            final(self).wf(),
            final(self)@.values == old(self)@.values,
            final(self)@.layout == old(self)@.layout,
            final(self)@.capacity == old(self)@.capacity,
            final(self)@.ticks_recent(change_tick.tick),
            forall|i: int| 0 <= i < old(self)@.len() ==> tick_distance(change_tick.tick, #[trigger] old(self)@.changed[i].tick) <= MAX_CHANGE_AGE
                ==> final(self)@.changed[i] == old(self)@.changed[i],
            forall|i: int| 0 <= i < old(self)@.len() ==> tick_distance(change_tick.tick, #[trigger] old(self)@.added[i].tick) <= MAX_CHANGE_AGE
                ==> final(self)@.added[i] == old(self)@.added[i],
            signals_kept(old(self)@, final(self)@, change_tick.tick),
    {
        let n = self.added_ticks.len();
        let mut i: usize = 0;
        while i < n
            invariant
                self.data == old(self).data,
                n == self.data@.len(),
                i <= n,
                self.added_ticks.len() == n,
                self.changed_ticks.len() == n,
                forall|k: int| 0 <= k < i ==> tick_distance(change_tick.tick, #[trigger] self.added_ticks@[k].tick) <= MAX_CHANGE_AGE,
                forall|k: int| 0 <= k < i ==> tick_distance(change_tick.tick, #[trigger] self.changed_ticks@[k].tick) <= MAX_CHANGE_AGE,
                forall|k: int| i <= k < n ==> self.added_ticks@[k] == old(self).added_ticks@[k],
                forall|k: int| i <= k < n ==> self.changed_ticks@[k] == old(self).changed_ticks@[k],
                forall|k: int| 0 <= k < n ==> tick_distance(change_tick.tick, #[trigger] old(self).added_ticks@[k].tick) <= MAX_CHANGE_AGE
                    ==> self.added_ticks@[k] == old(self).added_ticks@[k],
                forall|k: int| 0 <= k < n ==> tick_distance(change_tick.tick, #[trigger] old(self).changed_ticks@[k].tick) <= MAX_CHANGE_AGE
                    ==> self.changed_ticks@[k] == old(self).changed_ticks@[k],
                forall|k: int, lr: u32| 0 <= k < i ==> #[trigger] newer_than(self.added_ticks@[k].tick, lr, change_tick.tick)
                    == newer_than(old(self).added_ticks@[k].tick, lr, change_tick.tick),
                forall|k: int, lr: u32| 0 <= k < i ==> #[trigger] newer_than(self.changed_ticks@[k].tick, lr, change_tick.tick)
                    == newer_than(old(self).changed_ticks@[k].tick, lr, change_tick.tick),
            decreases n - i,
        {
            let mut a = self.added_ticks[i];
            a.check_tick(change_tick);
            self.added_ticks.set(i, a);
            let mut c = self.changed_ticks[i];
            c.check_tick(change_tick);
            self.changed_ticks.set(i, c);
            i = i + 1;
        }
    }
}

/// Component ids in strictly increasing order.
pub open spec fn strictly_sorted(ids: Seq<ComponentId>) -> bool {
    forall|i: int, j: int| 0 <= i < j < ids.len() ==> ids[i].0 < ids[j].0
}

/// The abstract content of a table: its sorted component ids, one column
/// per id, and the entity of each row.
pub struct TableView {
    pub ids: Seq<ComponentId>,
    pub columns: Seq<ColumnView>,
    pub entities: Seq<Entity>,
}

impl TableView {
    /// Every column holds one value and two ticks per entity.
    pub open spec fn wf(self) -> bool {
        &&& self.columns.len() == self.ids.len()
        &&& strictly_sorted(self.ids)
        &&& self.entities.len() <= u32::MAX
        &&& forall|c: int| 0 <= c < self.columns.len() ==> {
            &&& (#[trigger] self.columns[c]).values.len() == self.entities.len()
            &&& self.columns[c].added.len() == self.entities.len()
            &&& self.columns[c].changed.len() == self.entities.len()
            &&& forall|r: int| 0 <= r < self.entities.len() ==> (#[trigger] self.columns[c].values[r]).len() == self.columns[c].layout.size
        }
    }

    pub open spec fn len(self) -> nat {
        self.entities.len()
    }

    /// The position of a component's column.
    pub open spec fn column_of(self, id: ComponentId) -> int {
        choose|c: int| 0 <= c < self.ids.len() && self.ids[c] == id
    }

    pub open spec fn has(self, id: ComponentId) -> bool {
        self.ids.contains(id)
    }

    /// The table with a new row for `e`, still to be initialized.
    pub open spec fn allocate(self, e: Entity) -> TableView {
        TableView {
            ids: self.ids,
            columns: Seq::new(
                self.columns.len(),
                |c: int|
                    self.columns[c].push(
                        zeroed(self.columns[c].layout.size as nat),
                        ComponentTicks { added: Tick { tick: 0 }, changed: Tick { tick: 0 } },
                    ),
            ),
            entities: self.entities.push(e),
        }
    }

    /// The table without row `row`, its last row taking its place.
    pub open spec fn swap_remove(self, row: int) -> TableView {
        TableView {
            ids: self.ids,
            columns: Seq::new(self.columns.len(), |c: int| self.columns[c].swap_remove(row)),
            entities: swap_remove_seq(self.entities, row),
        }
    }

    /// The table with one value and its ticks written.
    pub open spec fn set(self, c: int, row: int, value: Seq<u8>, added: Tick, changed: Tick) -> TableView {
        TableView {
            columns: self.columns.update(
                c,
                ColumnView {
                    values: self.columns[c].values.update(row, value),
                    added: self.columns[c].added.update(row, added),
                    changed: self.columns[c].changed.update(row, changed),
                    layout: self.columns[c].layout,
                    capacity: self.columns[c].capacity,
                },
            ),
            ..self
        }
    }
}

/// Columnar storage for the entities of one set of table-class components.
#[derive(Debug)]
pub struct Table {
    ids: Vec<ComponentId>,
    columns: Vec<Column>,
    entities: Vec<Entity>,
}

impl View for Table {
    type V = TableView;

    closed spec fn view(&self) -> TableView {
        TableView {
            ids: self.ids@,
            columns: self.columns@.map_values(|c: Column| c@),
            entities: self.entities@,
        }
    }
}

impl Table {
    pub closed spec fn wf(&self) -> bool {
        &&& self@.wf()
        &&& forall|c: int| 0 <= c < self.columns.len() ==> (#[trigger] self.columns@[c]).wf()
    }

    pub proof fn lemma_wf(&self)
        requires
            self.wf(),
        ensures
            self@.wf(),
    {
    }

    /// A table with one empty column per id.
    pub fn new(ids: Vec<ComponentId>, layouts: Vec<Layout>) -> (r: Table)
        requires
            ids@.len() == layouts@.len(),
            strictly_sorted(ids@),
        ensures
            r.wf(),
            r@.ids == ids@,
            r@.entities.len() == 0,
            forall|c: int| 0 <= c < ids@.len() ==> (#[trigger] r@.columns[c]).layout == layouts@[c],
    {
        let mut columns: Vec<Column> = Vec::new();
        let mut i: usize = 0;
        while i < layouts.len()
            invariant
                i <= layouts.len(),
                columns.len() == i,
                forall|c: int| 0 <= c < i ==> (#[trigger] columns@[c]).wf() && columns@[c]@.len() == 0
                    && columns@[c]@.layout == layouts@[c],
            decreases layouts.len() - i,
        {
            columns.push(Column::with_capacity(layouts[i], 0));
            i = i + 1;
        }
        let r = Table { ids, columns, entities: Vec::new() };
        proof {
            assert forall|c: int| 0 <= c < r.columns.len() implies (#[trigger] r.columns@[c]).wf() by {}
            assert forall|c: int| 0 <= c < r@.columns.len() implies (#[trigger] r@.columns[c]).values.len() == 0 by {
                assert(r@.columns[c] == r.columns@[c]@);
                r.columns@[c].lemma_sizes();
            }
            assert forall|c: int| 0 <= c < r@.columns.len() implies (#[trigger] r@.columns[c]).added.len() == 0
                && r@.columns[c].changed.len() == 0 by {
                assert(r@.columns[c] == r.columns@[c]@);
                r.columns@[c].lemma_sizes();
            }
        }
        r
    }

    pub fn entities(&self) -> (r: &Vec<Entity>)
        ensures
            r@ == self@.entities,
    {
        &self.entities
    }

    pub fn entity_count(&self) -> (r: usize)
        ensures
            r == self@.entities.len(),
    {
        self.entities.len()
    }

    pub fn is_empty(&self) -> (r: bool)
        ensures
            r == (self@.entities.len() == 0),
    {
        self.entities.len() == 0
    }

    pub fn component_count(&self) -> (r: usize)
        requires
            self.wf(),
        ensures
            r == self@.ids.len(),
    {
        self.ids.len()
    }

    /// The sorted ids of the table's components.
    pub fn component_ids(&self) -> (r: &Vec<ComponentId>)
        ensures
            r@ == self@.ids,
    {
        &self.ids
    }

    /// The position of a component's column, if the table has one.
    pub fn column_index(&self, id: ComponentId) -> (r: Option<usize>)
        requires
            self.wf(),
        ensures
            r is Some <==> self@.has(id),
            r matches Some(c) ==> c < self@.ids.len() && self@.ids[c as int] == id && c == self@.column_of(id),
    {
        let mut i: usize = 0;
        while i < self.ids.len()
            invariant
                self.wf(),
                i <= self.ids.len(),
                forall|k: int| 0 <= k < i ==> self.ids@[k] != id,
            decreases self.ids.len() - i,
        {
            if self.ids[i] == id {
                proof {
                    let c = self@.column_of(id);
                    assert(self@.ids.contains(id));
                    assert(0 <= c < self@.ids.len() && self@.ids[c] == id);
                    assert(self@.wf());
                    if c < i {
                        assert(self@.ids[c].0 < self@.ids[i as int].0);
                    } else if c > i {
                        assert(self@.ids[i as int].0 < self@.ids[c].0);
                    }
                }
                return Some(i);
            }
            i = i + 1;
        }
        None
    }

    /// The column of a component.
    pub fn get_column(&self, id: ComponentId) -> (r: Option<&Column>)
        requires
            self.wf(),
        ensures
            r is Some <==> self@.has(id),
            r matches Some(col) ==> col@ == self@.columns[self@.column_of(id)] && col.wf(),
    {
        match self.column_index(id) {
            Some(c) => {
                proof {
                    assert(self@.columns[c as int] == self.columns@[c as int]@);
                }
                Some(&self.columns[c])
            },
            None => None,
        }
    }

    /// The value of row `row` in column `c`.
    pub fn get_value(&self, c: usize, row: TableRow) -> (r: &Vec<u8>)
        requires
            self.wf(),
            c < self@.ids.len(),
            row.0 < self@.entities.len(),
        ensures
            r@ == self@.columns[c as int].values[row.0 as int],
    {
        proof {
            assert(self@.columns[c as int] == self.columns@[c as int]@);
        }
        self.columns[c].data_at(row)
    }

    /// Adds a row for `entity`; every column gets a zeroed value and zero
    /// ticks, to be initialized by the caller.
    pub fn allocate(&mut self, entity: Entity) -> (r: TableRow)
        requires
            old(self).wf(),
            old(self)@.entities.len() < u32::MAX,
            forall|c: int| 0 <= c < old(self)@.columns.len() ==> (#[trigger] old(self)@.columns[c]).can_push(),
        ensures
            final(self).wf(),
            final(self)@ == old(self)@.allocate(entity),
            r.0 == old(self)@.entities.len(),
    {
        let row = self.entities.len();
        self.entities.push(entity);
        let mut c: usize = 0;
        while c < self.columns.len()
            invariant
                old(self).wf(),
                self.columns.len() == old(self).columns.len(),
                self.ids == old(self).ids,
                self.entities@ == old(self).entities@.push(entity),
                row == old(self).entities.len(),
                row < u32::MAX,
                forall|k: int| 0 <= k < old(self)@.columns.len() ==> (#[trigger] old(self)@.columns[k]).can_push(),
                c <= self.columns.len(),
                forall|k: int| 0 <= k < self.columns.len() ==> (#[trigger] self.columns@[k]).wf(),
                forall|k: int| 0 <= k < c ==> (#[trigger] self.columns@[k])@ == old(self).columns@[k]@.push(
                    zeroed(old(self).columns@[k]@.layout.size as nat),
                    ComponentTicks { added: Tick { tick: 0 }, changed: Tick { tick: 0 } },
                ),
                forall|k: int| c <= k < self.columns.len() ==> #[trigger] self.columns@[k] == old(self).columns@[k],
            decreases self.columns.len() - c,
        {
            proof {
                assert(old(self)@.columns[c as int] == old(self).columns@[c as int]@);
                assert(old(self)@.columns[c as int].values.len() == old(self)@.entities.len());
                assert(self.columns@[c as int] == old(self).columns@[c as int]);
            }
            self.columns[c].push_uninit();
            c = c + 1;
        }
        proof {
            assert(self@.columns =~= old(self)@.allocate(entity).columns);
            assert forall|k: int| 0 <= k < self@.columns.len() implies {
                &&& (#[trigger] self@.columns[k]).values.len() == self@.entities.len()
                &&& self@.columns[k].added.len() == self@.entities.len()
                &&& self@.columns[k].changed.len() == self@.entities.len()
                &&& forall|r: int| 0 <= r < self@.entities.len() ==> (#[trigger] self@.columns[k].values[r]).len() == self@.columns[k].layout.size
            } by {
                assert(old(self)@.columns[k] == old(self).columns@[k]@);
                assert(self@.columns[k] == self.columns@[k]@);
            }
        }
        TableRow(row as u32)
    }

    /// Writes the value and ticks of row `row` in column `c`.
    pub fn set_value(&mut self, c: usize, row: TableRow, value: Vec<u8>, ticks: ComponentTicks)
        requires
            old(self).wf(),
            c < old(self)@.ids.len(),
            row.0 < old(self)@.entities.len(),
            value@.len() == old(self)@.columns[c as int].layout.size,
        ensures
            final(self).wf(),
            final(self)@ == old(self)@.set(c as int, row.0 as int, value@, ticks.added, ticks.changed),
    {
        proof {
            assert(old(self)@.columns[c as int] == old(self).columns@[c as int]@);
        }
        self.columns[c].initialize(row, value, ticks.added);
        self.columns[c].set_changed_tick(row, ticks.changed);
        proof {
            let target = old(self)@.set(c as int, row.0 as int, value@, ticks.added, ticks.changed);
            assert forall|k: int| 0 <= k < self@.columns.len() implies self@.columns[k] == target.columns[k] by {
                assert(self@.columns[k] == self.columns@[k]@);
                if k != c {
                    assert(self.columns@[k] == old(self).columns@[k]);
                    assert(old(self)@.columns[k] == old(self).columns@[k]@);
                } else {
                    assert(self@.columns[k].values =~= target.columns[k].values);
                    assert(self@.columns[k].added =~= target.columns[k].added);
                    assert(self@.columns[k].changed =~= target.columns[k].changed);
                }
            }
            assert(self@.columns =~= target.columns);
            assert forall|k: int| 0 <= k < self.columns.len() implies (#[trigger] self.columns@[k]).wf() by {
                if k != c {
                    assert(self.columns@[k] == old(self).columns@[k]);
                }
            }
            assert forall|k: int| 0 <= k < self@.columns.len() implies {
                &&& (#[trigger] self@.columns[k]).values.len() == self@.entities.len()
                &&& self@.columns[k].added.len() == self@.entities.len()
                &&& self@.columns[k].changed.len() == self@.entities.len()
                &&& forall|r: int| 0 <= r < self@.entities.len() ==> (#[trigger] self@.columns[k].values[r]).len() == self@.columns[k].layout.size
            } by {
                assert(old(self)@.columns[k] == old(self).columns@[k]@);
                assert(self@.columns[k] == self.columns@[k]@);
            }
        }
    }

    /// Removes row `row`, releasing its values; the last row takes its
    /// place. Returns the entity that moved into `row`, if any did.
    pub fn swap_remove(&mut self, row: TableRow) -> (r: Option<Entity>)
        requires
            old(self).wf(),
            row.0 < old(self)@.entities.len(),
        ensures
            final(self).wf(),
            final(self)@ == old(self)@.swap_remove(row.0 as int),
            r is Some <==> row.0 < old(self)@.entities.len() - 1,
            r matches Some(e) ==> e == old(self)@.entities.last(),
    {
        let last = self.entities.len() - 1;
        self.entities.swap_remove(row.as_usize());
        let mut c: usize = 0;
        while c < self.columns.len()
            invariant
                old(self).wf(),
                self.columns.len() == old(self).columns.len(),
                self.ids == old(self).ids,
                self.entities@ == swap_remove_seq(old(self).entities@, row.0 as int),
                row.0 < old(self).entities.len(),
                c <= self.columns.len(),
                forall|k: int| 0 <= k < self.columns.len() ==> (#[trigger] self.columns@[k]).wf(),
                forall|k: int| 0 <= k < c ==> (#[trigger] self.columns@[k])@ == old(self).columns@[k]@.swap_remove(row.0 as int),
                forall|k: int| c <= k < self.columns.len() ==> #[trigger] self.columns@[k] == old(self).columns@[k],
            decreases self.columns.len() - c,
        {
            proof {
                assert(old(self)@.columns[c as int] == old(self).columns@[c as int]@);
            }
            self.columns[c].swap_remove_unchecked(row);
            c = c + 1;
        }
        proof {
            assert(self@.columns =~= old(self)@.swap_remove(row.0 as int).columns);
            assert forall|k: int| 0 <= k < self@.columns.len() implies {
                &&& (#[trigger] self@.columns[k]).values.len() == self@.entities.len()
                &&& self@.columns[k].added.len() == self@.entities.len()
                &&& self@.columns[k].changed.len() == self@.entities.len()
                &&& forall|r: int| 0 <= r < self@.entities.len() ==> (#[trigger] self@.columns[k].values[r]).len() == self@.columns[k].layout.size
            } by {
                assert(old(self)@.columns[k] == old(self).columns@[k]@);
                assert(self@.columns[k] == self.columns@[k]@);
                assert forall|r: int| 0 <= r < self@.entities.len() implies (#[trigger] self@.columns[k].values[r]).len() == self@.columns[k].layout.size by {
                    if r == row.0 {
                        assert(self@.columns[k].values[r] == old(self)@.columns[k].values[last as int]);
                    } else {
                        assert(self@.columns[k].values[r] == old(self)@.columns[k].values[r]);
                    }
                }
            }
        }
        if row.as_usize() < last {
            Some(self.entities[row.as_usize()])
        } else {
            None
        }
    }

    /// Clamps every stored tick of the table to at most `MAX_CHANGE_AGE`
    /// behind `change_tick`.
    pub fn check_change_ticks(&mut self, change_tick: Tick)
        requires
            old(self).wf(),
        ensures
            final(self).wf(),
            final(self)@.ids == old(self)@.ids,
            final(self)@.entities == old(self)@.entities,
            final(self)@.columns.len() == old(self)@.columns.len(),
            forall|c: int| 0 <= c < old(self)@.columns.len() ==> (#[trigger] final(self)@.columns[c]).values == old(self)@.columns[c].values
                && final(self)@.columns[c].layout == old(self)@.columns[c].layout
                && final(self)@.columns[c].ticks_recent(change_tick.tick)
                && signals_kept(old(self)@.columns[c], final(self)@.columns[c], change_tick.tick),
    {
        let mut c: usize = 0;
        while c < self.columns.len()
            invariant
                old(self).wf(),
                self.columns.len() == old(self).columns.len(),
                self.ids == old(self).ids,
                self.entities == old(self).entities,
                c <= self.columns.len(),
                forall|k: int| 0 <= k < self.columns.len() ==> (#[trigger] self.columns@[k]).wf(),
                forall|k: int| 0 <= k < c ==> (#[trigger] self.columns@[k])@.values == old(self).columns@[k]@.values
                    && self.columns@[k]@.layout == old(self).columns@[k]@.layout
                    && self.columns@[k]@.added.len() == old(self).columns@[k]@.added.len()
                    && self.columns@[k]@.changed.len() == old(self).columns@[k]@.changed.len()
                    && self.columns@[k]@.ticks_recent(change_tick.tick)
                    && signals_kept(old(self).columns@[k]@, self.columns@[k]@, change_tick.tick),
                forall|k: int| c <= k < self.columns.len() ==> #[trigger] self.columns@[k] == old(self).columns@[k],
            decreases self.columns.len() - c,
        {
            self.columns[c].check_change_ticks(change_tick);
            proof {
                self.columns@[c as int].lemma_sizes();
                old(self).columns@[c as int].lemma_sizes();
            }
            c = c + 1;
        }
        proof {
            assert forall|k: int| 0 <= k < self@.columns.len() implies {
                &&& (#[trigger] self@.columns[k]).values.len() == self@.entities.len()
                &&& self@.columns[k].added.len() == self@.entities.len()
                &&& self@.columns[k].changed.len() == self@.entities.len()
                &&& forall|r: int| 0 <= r < self@.entities.len() ==> (#[trigger] self@.columns[k].values[r]).len() == self@.columns[k].layout.size
            } by {
                assert(old(self)@.columns[k] == old(self).columns@[k]@);
                assert(self@.columns[k] == self.columns@[k]@);
            }
            assert forall|k: int| 0 <= k < old(self)@.columns.len() implies (#[trigger] self@.columns[k]).values == old(self)@.columns[k].values
                && self@.columns[k].layout == old(self)@.columns[k].layout
                && self@.columns[k].ticks_recent(change_tick.tick)
                && signals_kept(old(self)@.columns[k], self@.columns[k], change_tick.tick) by {
                assert(old(self)@.columns[k] == old(self).columns@[k]@);
                assert(self@.columns[k] == self.columns@[k]@);
            }
        }
    }

    /// The ticks of row `row` in column `c`.
    pub fn get_ticks(&self, c: usize, row: TableRow) -> (r: ComponentTicks)
        requires
            self.wf(),
            c < self@.ids.len(),
            row.0 < self@.entities.len(),
        ensures
            r.added == self@.columns[c as int].added[row.0 as int],
            r.changed == self@.columns[c as int].changed[row.0 as int],
    {
        proof {
            assert(self@.columns[c as int] == self.columns@[c as int]@);
        }
        self.columns[c].get_ticks(row)
    }
}

/// Whether two id lists are equal.
pub fn same_ids(a: &Vec<ComponentId>, b: &Vec<ComponentId>) -> (r: bool)
    ensures
        r == (a@ == b@),
{
    if a.len() != b.len() {
        return false;
    }
    let mut i: usize = 0;
    while i < a.len()
        invariant
            a.len() == b.len(),
            i <= a.len(),
            forall|k: int| 0 <= k < i ==> a@[k] == b@[k],
        decreases a.len() - i,
    {
        if a[i] != b[i] {
            return false;
        }
        i = i + 1;
    }
    proof {
        assert(a@ =~= b@);
    }
    true
}

/// The registry of tables: table zero has no columns, and no two tables
/// have the same component ids.
#[derive(Debug)]
pub struct Tables {
    tables: Vec<Table>,
}

impl View for Tables {
    type V = Seq<TableView>;

    closed spec fn view(&self) -> Seq<TableView> {
        self.tables@.map_values(|t: Table| t@)
    }
}

/// The invariant of the table registry, over its abstract content.
pub open spec fn tables_wf(ts: Seq<TableView>) -> bool {
    &&& 1 <= ts.len() <= u32::MAX
    &&& ts[0].ids.len() == 0
    &&& forall|t: int| 0 <= t < ts.len() ==> (#[trigger] ts[t]).wf()
    &&& forall|t: int, u: int| 0 <= t < ts.len() && 0 <= u < ts.len() && t != u ==> ts[t].ids != ts[u].ids
}

/// Replacing a table by one with the same ids keeps the registry well formed.
pub proof fn lemma_tables_update(ts: Seq<TableView>, t: int, table: TableView)
    requires
        tables_wf(ts),
        0 <= t < ts.len(),
        table.wf(),
        table.ids == ts[t].ids,
    ensures
        tables_wf(ts.update(t, table)),
{
    let n = ts.update(t, table);
    assert forall|a: int, b: int| 0 <= a < n.len() && 0 <= b < n.len() && a != b implies n[a].ids
        != n[b].ids by {
        assert(ts[a].ids != ts[b].ids);
    }
}

impl Tables {
    pub closed spec fn wf(&self) -> bool {
        &&& tables_wf(self@)
        &&& forall|t: int| 0 <= t < self.tables.len() ==> (#[trigger] self.tables@[t]).wf()
    }

    pub proof fn lemma_wf(&self)
        requires
            self.wf(),
        ensures
            tables_wf(self@),
    {
    }

    /// A registry that holds the table without columns.
    pub fn new() -> (r: Tables)
        ensures
            r.wf(),
            r@.len() == 1,
            r@[0].entities.len() == 0,
    {
        let empty = Table::new(Vec::new(), Vec::new());
        let mut tables: Vec<Table> = Vec::new();
        tables.push(empty);
        let r = Tables { tables };
        proof {
            assert(r@[0] == r.tables@[0]@);
        }
        r
    }

    pub fn len(&self) -> (r: usize)
        ensures
            r == self@.len(),
    {
        self.tables.len()
    }

    pub fn is_empty(&self) -> (r: bool)
        ensures
            r == (self@.len() == 0),
    {
        self.tables.len() == 0
    }

    pub fn get(&self, id: TableId) -> (r: Option<&Table>)
        requires
            self.wf(),
        ensures
            r is Some <==> id.0 < self@.len(),
            r matches Some(t) ==> t@ == self@[id.0 as int] && t.wf(),
    {
        if id.as_usize() < self.tables.len() {
            proof {
                assert(self@[id.0 as int] == self.tables@[id.0 as int]@);
            }
            Some(&self.tables[id.as_usize()])
        } else {
            None
        }
    }

    /// Adds a row for `entity` to table `t`.
    pub fn allocate(&mut self, t: TableId, entity: Entity) -> (r: TableRow)
        requires
            old(self).wf(),
            t.0 < old(self)@.len(),
            old(self)@[t.0 as int].entities.len() < u32::MAX,
            forall|c: int| 0 <= c < old(self)@[t.0 as int].columns.len() ==> (#[trigger] old(self)@[t.0 as int].columns[c]).can_push(),
        ensures
            final(self).wf(),
            final(self)@ == old(self)@.update(t.0 as int, old(self)@[t.0 as int].allocate(entity)),
            r.0 == old(self)@[t.0 as int].entities.len(),
    {
        proof {
            assert(old(self)@[t.0 as int] == old(self).tables@[t.0 as int]@);
        }
        let r = self.tables[t.as_usize()].allocate(entity);
        proof {
            self.lemma_after_update(*old(self), t.0 as int);
        }
        r
    }

    /// Writes the value and ticks of one cell of table `t`.
    pub fn set_value(&mut self, t: TableId, c: usize, row: TableRow, value: Vec<u8>, ticks: ComponentTicks)
        requires
            old(self).wf(),
            t.0 < old(self)@.len(),
            c < old(self)@[t.0 as int].ids.len(),
            row.0 < old(self)@[t.0 as int].entities.len(),
            value@.len() == old(self)@[t.0 as int].columns[c as int].layout.size,
        ensures
            final(self).wf(),
            final(self)@ == old(self)@.update(
                t.0 as int,
                old(self)@[t.0 as int].set(c as int, row.0 as int, value@, ticks.added, ticks.changed),
            ),
    {
        proof {
            assert(old(self)@[t.0 as int] == old(self).tables@[t.0 as int]@);
        }
        self.tables[t.as_usize()].set_value(c, row, value, ticks);
        proof {
            self.lemma_after_update(*old(self), t.0 as int);
        }
    }

    /// Removes a row of table `t`, the last row taking its place; returns the
    /// entity that moved, if any did.
    pub fn swap_remove(&mut self, t: TableId, row: TableRow) -> (r: Option<Entity>)
        requires
            old(self).wf(),
            t.0 < old(self)@.len(),
            row.0 < old(self)@[t.0 as int].entities.len(),
        ensures
            final(self).wf(),
            final(self)@ == old(self)@.update(t.0 as int, old(self)@[t.0 as int].swap_remove(row.0 as int)),
            r is Some <==> row.0 < old(self)@[t.0 as int].entities.len() - 1,
            r matches Some(e) ==> e == old(self)@[t.0 as int].entities.last(),
    {
        proof {
            assert(old(self)@[t.0 as int] == old(self).tables@[t.0 as int]@);
        }
        let r = self.tables[t.as_usize()].swap_remove(row);
        proof {
            self.lemma_after_update(*old(self), t.0 as int);
        }
        r
    }

    /// Clamps every stored tick of every table.
    pub fn check_change_ticks(&mut self, change_tick: Tick)
        requires
            old(self).wf(),
        ensures
            final(self).wf(),
            final(self)@.len() == old(self)@.len(),
            forall|t: int| 0 <= t < old(self)@.len() ==> {
                &&& (#[trigger] final(self)@[t]).ids == old(self)@[t].ids
                &&& final(self)@[t].entities == old(self)@[t].entities
                &&& final(self)@[t].columns.len() == old(self)@[t].columns.len()
                &&& forall|c: int| 0 <= c < old(self)@[t].columns.len() ==> (#[trigger] final(self)@[t].columns[c]).values == old(self)@[t].columns[c].values
                    && final(self)@[t].columns[c].layout == old(self)@[t].columns[c].layout
                    && final(self)@[t].columns[c].ticks_recent(change_tick.tick)
                    && signals_kept(old(self)@[t].columns[c], final(self)@[t].columns[c], change_tick.tick)
            },
    {
        let mut t: usize = 0;
        while t < self.tables.len()
            invariant
                self.wf(),
                self.tables.len() == old(self).tables.len(),
                t <= self.tables.len(),
                forall|u: int| 0 <= u < t ==> {
                    &&& (#[trigger] self@[u]).ids == old(self)@[u].ids
                    &&& self@[u].entities == old(self)@[u].entities
                    &&& self@[u].columns.len() == old(self)@[u].columns.len()
                    &&& forall|c: int| 0 <= c < old(self)@[u].columns.len() ==> (#[trigger] self@[u].columns[c]).values == old(self)@[u].columns[c].values
                        && self@[u].columns[c].layout == old(self)@[u].columns[c].layout
                        && self@[u].columns[c].ticks_recent(change_tick.tick)
                        && signals_kept(old(self)@[u].columns[c], self@[u].columns[c], change_tick.tick)
                },
                forall|u: int| t <= u < self.tables.len() ==> #[trigger] self.tables@[u] == old(self).tables@[u],
            decreases self.tables.len() - t,
        {
            let ghost before = *self;
            proof {
                assert(self.tables@[t as int].wf());
            }
            self.tables[t].check_change_ticks(change_tick);
            proof {
                self.lemma_after_update(before, t as int);
                assert forall|u: int| 0 <= u < t + 1 implies {
                    &&& (#[trigger] self@[u]).ids == old(self)@[u].ids
                    &&& self@[u].entities == old(self)@[u].entities
                    &&& self@[u].columns.len() == old(self)@[u].columns.len()
                    &&& forall|c: int| 0 <= c < old(self)@[u].columns.len() ==> (#[trigger] self@[u].columns[c]).values == old(self)@[u].columns[c].values
                        && self@[u].columns[c].layout == old(self)@[u].columns[c].layout
                        && self@[u].columns[c].ticks_recent(change_tick.tick)
                        && signals_kept(old(self)@[u].columns[c], self@[u].columns[c], change_tick.tick)
                } by {
                    if u < t {
                        assert(self@[u] == before@[u]);
                    } else {
                        assert(old(self)@[u] == old(self).tables@[u]@);
                        assert(before.tables@[u] == old(self).tables@[u]);
                    }
                }
            }
            t = t + 1;
        }
    }

    /// After one table changed, keeping its ids and its invariant, the
    /// registry is still well formed.
    proof fn lemma_after_update(&self, prev: Tables, t: int)
        requires
            prev.wf(),
            0 <= t < prev.tables.len(),
            self.tables.len() == prev.tables.len(),
            self.tables@[t].wf(),
            self.tables@[t]@.ids == prev.tables@[t]@.ids,
            forall|k: int| 0 <= k < self.tables.len() && k != t ==> self.tables@[k] == prev.tables@[k],
        ensures
            self.wf(),
            self@ == prev@.update(t, self.tables@[t]@),
    {
        assert(self@ =~= prev@.update(t, self.tables@[t]@));
        assert(prev@[t] == prev.tables@[t]@);
        assert(self.tables@[t]@.wf());
        lemma_tables_update(prev@, t, self.tables@[t]@);
        assert forall|k: int| 0 <= k < self.tables.len() implies (#[trigger] self.tables@[k]).wf() by {
            if k != t {
                assert(self.tables@[k] == prev.tables@[k]);
            }
        }
    }

    /// The table of the given sorted component ids, made on first request.
    pub fn get_id_or_insert(&mut self, ids: &Vec<ComponentId>, components: &Components) -> (r: TableId)
        requires
            old(self).wf(),
            components.wf(),
            strictly_sorted(ids@),
            forall|k: int| 0 <= k < ids@.len() ==> (#[trigger] ids@[k]).0 < components@.len(),
            (exists|t: int| 0 <= t < old(self)@.len() && old(self)@[t].ids == ids@) || old(self)@.len() < u32::MAX,
        ensures
            final(self).wf(),
            r.0 < final(self)@.len(),
            final(self)@[r.0 as int].ids == ids@,
            (exists|t: int| 0 <= t < old(self)@.len() && old(self)@[t].ids == ids@) ==> final(self)@ == old(self)@,
            !(exists|t: int| 0 <= t < old(self)@.len() && old(self)@[t].ids == ids@) ==> {
                &&& final(self)@.len() == old(self)@.len() + 1
                &&& final(self)@.subrange(0, old(self)@.len() as int) == old(self)@
                &&& r.0 == old(self)@.len()
                &&& final(self)@[r.0 as int].entities.len() == 0
                &&& forall|c: int| 0 <= c < ids@.len() ==> (#[trigger] final(self)@[r.0 as int].columns[c]).layout
                    == components@[ids@[c].0 as int].layout
            },
    {
        let mut t: usize = 0;
        while t < self.tables.len()
            invariant
                self.wf(),
                t <= self.tables.len(),
                forall|k: int| 0 <= k < t ==> self@[k].ids != ids@,
            decreases self.tables.len() - t,
        {
            if same_ids(self.tables[t].component_ids(), ids) {
                proof {
                    assert(self@[t as int] == self.tables@[t as int]@);
                }
                return TableId(t as u32);
            }
            proof {
                assert(self@[t as int] == self.tables@[t as int]@);
            }
            t = t + 1;
        }
        let mut layouts: Vec<Layout> = Vec::new();
        let mut k: usize = 0;
        while k < ids.len()
            invariant
                k <= ids.len(),
                layouts.len() == k,
                forall|j: int| 0 <= j < ids@.len() ==> (#[trigger] ids@[j]).0 < components@.len(),
                forall|j: int| 0 <= j < k ==> layouts@[j] == components@[ids@[j].0 as int].layout,
            decreases ids.len() - k,
        {
            layouts.push(components.layout_of(ids[k]));
            k = k + 1;
        }
        let mut own_ids: Vec<ComponentId> = Vec::new();
        let mut k: usize = 0;
        while k < ids.len()
            invariant
                k <= ids.len(),
                own_ids@ == ids@.subrange(0, k as int),
            decreases ids.len() - k,
        {
            own_ids.push(ids[k]);
            k = k + 1;
            proof {
                assert(own_ids@ =~= ids@.subrange(0, k as int));
            }
        }
        proof {
            assert(own_ids@ =~= ids@);
        }
        let id = self.tables.len();
        let table = Table::new(own_ids, layouts);
        self.tables.push(table);
        proof {
            assert(self@.subrange(0, old(self)@.len() as int) =~= old(self)@);
            assert(self@[id as int] == table@);
            assert forall|a: int, b: int| 0 <= a < self@.len() && 0 <= b < self@.len() && a != b
                implies self@[a].ids != self@[b].ids by {
                if a < id && b < id {
                    assert(self@[a] == old(self)@[a]);
                    assert(self@[b] == old(self)@[b]);
                } else if a == id {
                    assert(self@[b] == old(self)@[b]);
                } else {
                    assert(self@[a] == old(self)@[a]);
                }
            }
            assert forall|a: int| 0 <= a < self@.len() implies (#[trigger] self@[a]).wf() by {
                assert(self@[a] == self.tables@[a]@);
            }
            assert(self@[0] == old(self)@[0]);
        }
        TableId(id as u32)
    }
}

} // verus!
