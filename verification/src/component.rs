//! The component registry: assigns a stable dense index to each distinct
//! registration and records the memory layout and drop discipline of each
//! component type.

use vstd::prelude::*;

use crate::maps::KeyMap;

verus! {

/// Dense index into the component registry. Stable for the life of the
/// world.
#[derive(Clone, Copy, PartialEq, Eq, Structural, Hash, Debug)]
pub struct ComponentIdx(pub u32);

/// Identifier of a registered component. The registry never removes
/// components, so the identifier is the dense index itself.
#[derive(Clone, Copy, PartialEq, Eq, Structural, Hash, Debug)]
pub struct ComponentId(pub u32);

impl ComponentId {
    pub fn index(self) -> (r: ComponentIdx)
        ensures
            r == ComponentIdx(self.0),
    {
        ComponentIdx(self.0)
    }
}

/// The memory layout of one component type: element size and alignment in
/// bytes.
#[derive(Clone, Copy, PartialEq, Eq, Structural, Debug)]
pub struct ComponentLayout {
    pub size: usize,
    pub align: usize,
}

/// Marker trait for record types that can be registered as components.
/// `mutable` says whether the component permits mutation through exclusive
/// references once fetched by a system.
pub trait Component {
    fn mutable() -> bool;
}

/// What a caller hands to the registry: a name, an optional type-identity
/// key used for deduplication, the layout, and whether elements carry a
/// destructor.
#[derive(Clone, Debug)]
pub struct ComponentDescriptor {
    pub name: String,
    pub type_id: Option<u64>,
    pub layout: ComponentLayout,
    pub drop: bool,
}

/// One registered component: immutable after registration.
#[derive(Debug)]
pub struct ComponentInfo {
    pub name: String,
    pub id: ComponentId,
    pub type_id: Option<u64>,
    pub layout: ComponentLayout,
    pub drop: bool,
}

impl ComponentInfo {
    pub open spec fn spec_name(self) -> Seq<char> {
        self.name@
    }

    pub open spec fn spec_id(self) -> ComponentId {
        self.id
    }

    pub open spec fn spec_type_id(self) -> Option<u64> {
        self.type_id
    }

    pub open spec fn spec_layout(self) -> ComponentLayout {
        self.layout
    }

    pub open spec fn spec_drop(self) -> bool {
        self.drop
    }

    pub fn name(&self) -> (r: &str)
        ensures
            r@ == self.spec_name(),
    {
        self.name.as_str()
    }

    pub fn id(&self) -> (r: ComponentId)
        ensures
            r == self.spec_id(),
    {
        self.id
    }

    pub fn type_id(&self) -> (r: Option<u64>)
        ensures
            r == self.spec_type_id(),
    {
        self.type_id
    }

    pub fn layout(&self) -> (r: ComponentLayout)
        ensures
            r == self.spec_layout(),
    {
        self.layout
    }

    pub fn drop(&self) -> (r: bool)
        ensures
            r == self.spec_drop(),
    {
        self.drop
    }
}

/// The registry of all components of one world. A registration with a known
/// type-identity key is answered with the existing id; every other
/// registration allocates the next dense index.
#[derive(Debug)]
pub struct Components {
    pub infos: Vec<ComponentInfo>,
    pub by_type_id: KeyMap,
}

impl Components {
    /// Registry invariant: the info at dense position `i` carries id `i`,
    /// and the type-identity map is exactly the inverse of the `type_id`
    /// fields of the stored infos.
    pub open spec fn wf(self) -> bool {
        &&& self.infos@.len() <= u32::MAX
        &&& forall|i: int|
            0 <= i < self.infos@.len() ==> (#[trigger] self.infos@[i]).id == ComponentId(i as u32)
        &&& self.by_type_id.wf()
        &&& forall|i: int|
            0 <= i < self.infos@.len() && (#[trigger] self.infos@[i]).type_id is Some
                ==> self.by_type_id.spec_contains(self.infos@[i].type_id->0)
                && self.by_type_id.spec_get(self.infos@[i].type_id->0) == i as u32
        &&& forall|k: u64|
            #[trigger] self.by_type_id.spec_contains(k) ==> self.by_type_id.spec_get(k)
                < self.infos@.len() && self.infos@[self.by_type_id.spec_get(k) as int].type_id
                == Some(k)
    }

    /// The registered infos, in dense-index order.
    pub open spec fn view(self) -> Seq<ComponentInfo> {
        self.infos@
    }

    pub open spec fn spec_registered(self, idx: u32) -> bool {
        idx < self.infos@.len()
    }

    pub open spec fn spec_layout_of(self, idx: u32) -> ComponentLayout {
        self.infos@[idx as int].layout
    }

    pub open spec fn spec_drop_of(self, idx: u32) -> bool {
        self.infos@[idx as int].drop
    }

    pub fn new() -> (r: Self)
        ensures
            r.wf(),
            r.view() == Seq::<ComponentInfo>::empty(),
    {
        Components { infos: Vec::new(), by_type_id: KeyMap::new() }
    }

    /// The number of registered components.
    pub fn len(&self) -> (r: usize)
        ensures
            r == self.view().len(),
    {
        self.infos.len()
    }

    /// Registers a component. If the descriptor carries a type-identity key
    /// that is already known, the existing id is returned with `false`;
    /// otherwise a fresh dense slot is allocated and its id returned with
    /// `true`.
    pub fn add(&mut self, desc: ComponentDescriptor) -> (r: (ComponentId, bool))
        requires
            old(self).wf(),
            old(self).view().len() < u32::MAX,
        ensures
            final(self).wf(),
            ({
                let dup = desc.type_id is Some && old(self).by_type_id.spec_contains(
                    desc.type_id->0,
                );
                &&& r.1 == !dup
                &&& dup ==> *final(self) == *old(self) && r.0 == ComponentId(
                    old(self).by_type_id.spec_get(desc.type_id->0),
                )
                &&& !dup ==> r.0 == ComponentId(old(self).view().len() as u32) && final(self).view().len() == old(self).view().len() + 1 && final(self).view() == old(self).view().push(final(self).view().last()) && final(self).view().last().spec_name()
                    == desc.name@ && final(self).view().last().spec_id() == r.0 && final(self).view().last().spec_type_id() == desc.type_id && final(self).view().last().spec_layout() == desc.layout && final(self).view().last().spec_drop()
                    == desc.drop
            }),
    {
        let id = self.infos.len() as u32;
        if let Some(key) = desc.type_id {
            match self.by_type_id.get(key) {
                Some(existing) => {
                    return (ComponentId(existing), false);
                },
                None => {
                    self.by_type_id.insert(key, id);
                },
            }
        }
        let info = ComponentInfo {
            name: desc.name,
            id: ComponentId(id),
            type_id: desc.type_id,
            layout: desc.layout,
            drop: desc.drop,
        };
        self.infos.push(info);
        proof {
            assert forall|k: u64| #[trigger]
                self.by_type_id.spec_contains(k) implies self.by_type_id.spec_get(k)
                < self.infos@.len() && self.infos@[self.by_type_id.spec_get(k) as int].type_id
                == Some(k) by {
                if desc.type_id == Some(k) {
                    assert(self.by_type_id.spec_get(k) == id);
                } else {
                    assert(old(self).by_type_id.spec_contains(k));
                }
            }
        }
        (ComponentId(id), true)
    }

    /// Looks a component up by id; absent ids give `None`.
    pub fn get(&self, id: ComponentId) -> (r: Option<&ComponentInfo>)
        requires
            self.wf(),
        ensures
            id.0 < self.view().len() ==> r == Some(&self.view()[id.0 as int]),
            id.0 >= self.view().len() ==> r is None,
    {
        if (id.0 as usize) < self.infos.len() {
            Some(&self.infos[id.0 as usize])
        } else {
            None
        }
    }

    /// Looks a component up by dense index; absent indices give `None`.
    pub fn get_by_index(&self, idx: ComponentIdx) -> (r: Option<&ComponentInfo>)
        requires
            self.wf(),
        ensures
            idx.0 < self.view().len() ==> r == Some(&self.view()[idx.0 as int]),
            idx.0 >= self.view().len() ==> r is None,
    {
        if (idx.0 as usize) < self.infos.len() {
            Some(&self.infos[idx.0 as usize])
        } else {
            None
        }
    }

    /// Looks a component up by its type-identity key.
    pub fn get_by_type_id(&self, type_id: u64) -> (r: Option<&ComponentInfo>)
        requires
            self.wf(),
        ensures
            self.by_type_id.spec_contains(type_id) ==> r == Some(
                &self.view()[self.by_type_id.spec_get(type_id) as int],
            ),
            !self.by_type_id.spec_contains(type_id) ==> r is None,
    {
        match self.by_type_id.get(type_id) {
            Some(id) => Some(&self.infos[id as usize]),
            None => None,
        }
    }
}

} // verus!
