use vstd::prelude::*;

verus! {

/// The storage class of a component type.
#[derive(Clone, Copy, Debug, PartialEq, Eq, Structural)]
pub enum StorageType {
    Table,
    SparseSet,
}

/// The size and alignment of a component value, in bytes.
#[derive(Clone, Copy, Debug, PartialEq, Eq, Structural)]
pub struct Layout {
    pub size: usize,
    pub align: usize,
}

impl Layout {
    pub open spec fn wf(self) -> bool {
        self.align > 0
    }

    pub fn new(size: usize, align: usize) -> (r: Layout)
        ensures
            r.size == size,
            r.align == align,
    {
        Layout { size, align }
    }

    pub fn size(&self) -> (r: usize)
        ensures
            r == self.size,
    {
        self.size
    }

    pub fn align(&self) -> (r: usize)
        ensures
            r == self.align,
    {
        self.align
    }
}

/// The number of bytes that bring `size` up to the next multiple of `align`.
pub open spec fn padding_for(size: int, align: int) -> int {
    (align - size % align) % align
}

/// The padding that must follow a value of `layout` so that the next value
/// starts at a multiple of `align`.
pub fn padding_needed_for(layout: &Layout, align: usize) -> (r: usize)
    requires
        align > 0,
    ensures
        r == padding_for(layout.size as int, align as int),
        r < align,
{
    let rem = layout.size % align;
    proof {
        if rem == 0 {
            vstd::arithmetic::div_mod::lemma_mod_self_0(align as int);
        } else {
            vstd::arithmetic::div_mod::lemma_small_mod((align - rem) as nat, align as nat);
        }
    }
    if rem == 0 {
        0
    } else {
        align - rem
    }
}

/// The layout of `n` values of `layout` side by side, each padded to its
/// alignment; `None` where the total size does not fit.
pub fn array_layout(layout: &Layout, n: usize) -> (r: Option<Layout>)
    requires
        layout.wf(),
    ensures
        ({
            let padded = layout.size + padding_for(layout.size as int, layout.align as int);
            &&& r is Some <==> padded <= usize::MAX && padded * n <= usize::MAX
            &&& r matches Some(l) ==> l.size == padded * n && l.align == layout.align
        }),
{
    let pad = padding_needed_for(layout, layout.align);
    if layout.size > usize::MAX - pad {
        return None;
    }
    let padded = layout.size + pad;
    match padded.checked_mul(n) {
        Some(total) => Some(Layout { size: total, align: layout.align }),
        None => None,
    }
}

/// The dense identifier of a registered component type.
#[derive(Clone, Copy, Debug, PartialEq, Eq, Structural, Hash, PartialOrd, Ord)]
pub struct ComponentId(pub usize);

impl ComponentId {
    pub fn new(id: usize) -> (r: ComponentId)
        ensures
            r.0 == id,
    {
        ComponentId(id)
    }

    pub fn id(self) -> (r: usize)
        ensures
            r == self.0,
    {
        self.0
    }
}

/// What a component type declares about itself when it is registered.
#[derive(Clone, Debug)]
pub struct ComponentDescriptor {
    pub name: String,
    pub storage_type: StorageType,
    /// A key that identifies the component's type, if it has one; two
    /// registrations with one key name one component.
    pub type_id: Option<u64>,
    pub layout: Layout,
    /// Whether its values own resources that must be released on removal.
    pub needs_drop: bool,
}

impl ComponentDescriptor {
    pub fn new(
        name: String,
        storage_type: StorageType,
        type_id: Option<u64>,
        layout: Layout,
        needs_drop: bool,
    ) -> (r: ComponentDescriptor)
        ensures
            r.name@ == name@,
            r.storage_type == storage_type,
            r.type_id == type_id,
            r.layout == layout,
            r.needs_drop == needs_drop,
    {
        ComponentDescriptor { name, storage_type, type_id, layout, needs_drop }
    }

    pub fn type_id(&self) -> (r: Option<u64>)
        ensures
            r == self.type_id,
    {
        self.type_id
    }

    pub fn name(&self) -> (r: &str)
        ensures
            r@ == self.name@,
    {
        self.name.as_str()
    }

    /// A copy of the descriptor.
    pub fn copy(&self) -> (r: ComponentDescriptor)
        ensures
            record_of(r) == record_of(*self),
            r.needs_drop == self.needs_drop,
    {
        ComponentDescriptor {
            name: self.name.clone(),
            storage_type: self.storage_type,
            type_id: self.type_id,
            layout: self.layout,
            needs_drop: self.needs_drop,
        }
    }
}

/// A registered component: its id and its descriptor.
#[derive(Clone, Debug)]
pub struct ComponentInfo {
    pub id: ComponentId,
    pub descriptor: ComponentDescriptor,
}

impl ComponentInfo {
    pub fn new(id: ComponentId, descriptor: ComponentDescriptor) -> (r: ComponentInfo)
        ensures
            r.id == id,
            r.descriptor.name@ == descriptor.name@,
            r.descriptor.storage_type == descriptor.storage_type,
            r.descriptor.type_id == descriptor.type_id,
            r.descriptor.layout == descriptor.layout,
            r.descriptor.needs_drop == descriptor.needs_drop,
    {
        ComponentInfo { id, descriptor }
    }

    pub fn id(&self) -> (r: ComponentId)
        ensures
            r == self.id,
    {
        self.id
    }

    pub fn name(&self) -> (r: &str)
        ensures
            r@ == self.descriptor.name@,
    {
        self.descriptor.name.as_str()
    }

    pub fn type_id(&self) -> (r: Option<u64>)
        ensures
            r == self.descriptor.type_id,
    {
        self.descriptor.type_id
    }

    pub fn layout(&self) -> (r: Layout)
        ensures
            r == self.descriptor.layout,
    {
        self.descriptor.layout
    }

    /// Whether removing a value of this component must release it.
    pub fn drop(&self) -> (r: bool)
        ensures
            r == self.descriptor.needs_drop,
    {
        self.descriptor.needs_drop
    }

    pub fn storage_type(&self) -> (r: StorageType)
        ensures
            r == self.descriptor.storage_type,
    {
        self.descriptor.storage_type
    }
}

/// The registry of component types. Ids are the positions in `components`,
/// and no two registered components share a type key.
#[derive(Debug)]
pub struct Components {
    components: Vec<ComponentInfo>,
}

/// What the registry records of one component.
pub struct ComponentRecord {
    pub name: Seq<char>,
    pub storage_type: StorageType,
    pub type_id: Option<u64>,
    pub layout: Layout,
}

pub open spec fn record_of(d: ComponentDescriptor) -> ComponentRecord {
    ComponentRecord { name: d.name@, storage_type: d.storage_type, type_id: d.type_id, layout: d.layout }
}

impl View for Components {
    type V = Seq<ComponentRecord>;

    closed spec fn view(&self) -> Seq<ComponentRecord> {
        self.components@.map_values(|c: ComponentInfo| record_of(c.descriptor))
    }
}

impl Components {
    pub closed spec fn wf(&self) -> bool {
        &&& forall|i: int| 0 <= i < self.components.len() ==> #[trigger] self.components@[i].id.0 == i
        &&& forall|i: int, j: int|
            0 <= i < self.components.len() && 0 <= j < self.components.len() && i != j
                && self.components@[i].descriptor.type_id is Some
                ==> self.components@[i].descriptor.type_id != self.components@[j].descriptor.type_id
    }

    /// No two registered components share a type key.
    pub proof fn lemma_keys_unique(&self)
        requires
            self.wf(),
        ensures
            forall|i: int, j: int| 0 <= i < self@.len() && 0 <= j < self@.len() && i != j && (#[trigger] self@[i]).type_id is Some
                ==> self@[i].type_id != (#[trigger] self@[j]).type_id,
    {
        assert forall|i: int, j: int| 0 <= i < self@.len() && 0 <= j < self@.len() && i != j && (#[trigger] self@[i]).type_id is Some
            implies self@[i].type_id != (#[trigger] self@[j]).type_id by {
            assert(self@[i] == record_of(self.components@[i].descriptor));
            assert(self@[j] == record_of(self.components@[j].descriptor));
        }
    }

    pub fn new() -> (r: Components)
        ensures
            r.wf(),
            r@.len() == 0,
    {
        Components { components: Vec::new() }
    }

    pub fn len(&self) -> (r: usize)
        ensures
            r == self@.len(),
    {
        self.components.len()
    }

    pub fn is_empty(&self) -> (r: bool)
        ensures
            r == (self@.len() == 0),
    {
        self.components.len() == 0
    }

    pub fn get_info(&self, id: ComponentId) -> (r: Option<&ComponentInfo>)
        requires
            self.wf(),
        ensures
            r is Some <==> id.0 < self@.len(),
            r matches Some(info) ==> info.id == id && record_of(info.descriptor) == self@[id.0 as int],
    {
        if id.0 < self.components.len() {
            proof {
                assert(self@[id.0 as int] == record_of(self.components@[id.0 as int].descriptor));
                assert(self.components@[id.0 as int].id.0 == id.0);
            }
            Some(&self.components[id.0])
        } else {
            None
        }
    }

    /// The storage class of a registered component.
    pub fn storage_type_of(&self, id: ComponentId) -> (r: StorageType)
        requires
            id.0 < self@.len(),
        ensures
            r == self@[id.0 as int].storage_type,
    {
        self.components[id.0].descriptor.storage_type
    }

    /// The layout of a registered component.
    pub fn layout_of(&self, id: ComponentId) -> (r: Layout)
        requires
            id.0 < self@.len(),
        ensures
            r == self@[id.0 as int].layout,
    {
        self.components[id.0].descriptor.layout
    }

    /// The name of a registered component.
    pub fn get_name(&self, id: ComponentId) -> (r: Option<&str>)
        ensures
            r is Some <==> id.0 < self@.len(),
            r matches Some(n) ==> n@ == self@[id.0 as int].name,
    {
        if id.0 < self.components.len() {
            proof {
                assert(self@[id.0 as int] == record_of(self.components@[id.0 as int].descriptor));
            }
            Some(self.components[id.0].descriptor.name.as_str())
        } else {
            None
        }
    }

    /// The component registered under a type key.
    pub fn get_id(&self, type_id: u64) -> (r: Option<ComponentId>)
        requires
            self.wf(),
        ensures
            r is Some <==> exists|i: int| 0 <= i < self@.len() && self@[i].type_id == Some(type_id),
            r matches Some(id) ==> id.0 < self@.len() && self@[id.0 as int].type_id == Some(type_id),
    {
        let mut i: usize = 0;
        while i < self.components.len()
            invariant
                0 <= i <= self.components.len(),
                self@.len() == self.components.len(),
                forall|k: int| 0 <= k < i ==> self@[k].type_id != Some(type_id),
            decreases self.components.len() - i,
        {
            if self.components[i].descriptor.type_id == Some(type_id) {
                return Some(ComponentId(i));
            }
            i = i + 1;
        }
        None
    }

    /// Registers a component; a descriptor whose type key is already
    /// registered gives back the existing id. The flag tells whether a new
    /// component was added.
    pub fn init_component(&mut self, descriptor: ComponentDescriptor) -> (r: (ComponentId, bool))
        requires
            old(self).wf(),
            old(self)@.len() < usize::MAX,
        ensures
            final(self).wf(),
            r.1 ==> final(self)@ == old(self)@.push(record_of(descriptor)) && r.0.0 == old(self)@.len(),
            !r.1 ==> final(self)@ == old(self)@ && r.0.0 < old(self)@.len()
                && old(self)@[r.0.0 as int].type_id == descriptor.type_id,
            r.1 <==> (descriptor.type_id is None || !exists|i: int|
                0 <= i < old(self)@.len() && old(self)@[i].type_id == descriptor.type_id),
    {
        if let Some(key) = descriptor.type_id {
            if let Some(id) = self.get_id(key) {
                return (id, false);
            }
        }
        let id = ComponentId(self.components.len());
        let ghost prev = self.components@;
        self.components.push(ComponentInfo { id, descriptor });
        proof {
            assert(self@ =~= old(self)@.push(record_of(descriptor)));
            assert forall|i: int, j: int|
                0 <= i < self.components.len() && 0 <= j < self.components.len() && i != j
                    && self.components@[i].descriptor.type_id is Some implies self.components@[i].descriptor.type_id
                    != self.components@[j].descriptor.type_id by {
                if i < prev.len() && j < prev.len() {
                } else if i == prev.len() {
                    assert(self@[j].type_id == prev[j].descriptor.type_id);
                } else {
                    assert(self@[i].type_id == prev[i].descriptor.type_id);
                }
            }
        }
        (id, true)
    }
}

} // verus!
