//! One archetype: the table holding every entity that carries exactly one
//! set of components, as a parallel vector of entity ids and one column per
//! component, sorted by component index. Also the row move between two
//! archetypes: a two-finger merge that transfers shared components, drops
//! departing ones, and pushes newly supplied values.

use vstd::prelude::*;

use crate::column::Column;
use crate::column::swap_removed;
use crate::component::ComponentIdx;
use crate::component::Components;
use crate::maps::EdgeMap;
use crate::maps::ListenerSet;
use crate::system::EventMap;
use crate::system::Notification;
use crate::system::RefreshArchetypeReason;
use crate::system::SystemInfo;
use crate::system::SystemList;
use crate::system::contains_u32;
use crate::system::insert_pos;

verus! {

/// Dense index of an archetype in the graph. Index 0 is reserved for the
/// archetype with no components; `u32::MAX` is the invalid sentinel.
#[derive(Clone, Copy, PartialEq, Eq, Structural, Hash, Debug)]
pub struct ArchetypeIdx(pub u32);

impl ArchetypeIdx {
    /// Index of the archetype with no components.
    pub fn empty_idx() -> (r: Self)
        ensures
            r == ArchetypeIdx(0),
    {
        ArchetypeIdx(0)
    }

    /// The archetype index that is always invalid.
    pub fn null_idx() -> (r: Self)
        ensures
            r == ArchetypeIdx(u32::MAX),
    {
        ArchetypeIdx(u32::MAX)
    }
}

/// Row number of one entity within an archetype.
#[derive(Clone, Copy, PartialEq, Eq, Structural, Hash, Debug)]
pub struct ArchetypeRow(pub u32);

/// The table for one exact component set.
pub struct Archetype {
    /// The index of this archetype, for convenience.
    pub index: ArchetypeIdx,
    /// Entity ids of the entities in this archetype, parallel to every
    /// column.
    pub entity_ids: Vec<u32>,
    /// Element capacity of the entity-id vector before it must grow.
    pub ids_cap: usize,
    /// Columns of component data, sorted strictly ascending by component
    /// index.
    pub columns: Vec<Column>,
    /// Cached insert edges: component index to destination archetype.
    pub insert_components: EdgeMap,
    /// Cached remove edges: component index to destination archetype.
    pub remove_components: EdgeMap,
    /// Systems to notify about column changes.
    pub refresh_listeners: ListenerSet,
    /// Entity-event listeners, by entity-event index.
    pub event_listeners: EventMap,
}

impl Archetype {
    /// The component-index set of this archetype, ascending.
    pub open spec fn spec_components(self) -> Seq<u32> {
        Seq::new(self.columns@.len(), |i: int| self.columns@[i].component_idx.0)
    }

    /// Table invariant: columns strictly sorted by component index, every
    /// column well formed, and all columns in length lockstep with the
    /// entity-id vector.
    pub open spec fn wf(self) -> bool {
        &&& forall|i: int, j: int|
            0 <= i < j < self.columns@.len() ==> self.columns@[i].component_idx.0
                < self.columns@[j].component_idx.0
        &&& forall|i: int| 0 <= i < self.columns@.len() ==> (#[trigger] self.columns@[i]).wf()
        &&& forall|i: int|
            0 <= i < self.columns@.len() ==> (#[trigger] self.columns@[i]).len
                == self.entity_ids@.len()
        &&& self.entity_ids@.len() <= self.ids_cap
        &&& self.entity_ids@.len() <= u32::MAX
        &&& self.insert_components.wf()
        &&& self.remove_components.wf()
        &&& self.refresh_listeners.wf()
        &&& self.event_listeners.wf()
    }

    /// The capacity of the entity-id vector after one append: doubling
    /// growth, starting at one.
    pub open spec fn grown_ids_cap(self) -> int {
        if self.entity_ids@.len() == self.ids_cap {
            if self.ids_cap == 0 {
                1
            } else if self.ids_cap > usize::MAX / 2 {
                usize::MAX as int
            } else {
                2 * self.ids_cap
            }
        } else {
            self.ids_cap as int
        }
    }

    /// Whether appending one row makes the table reallocate: some column is
    /// full, or the entity-id vector is. Detected by capacity before the
    /// mutation, never by comparing base addresses.
    pub open spec fn spec_will_reallocate(self) -> bool {
        ||| self.columns@.len() > 0 && self.columns@[0].len == self.columns@[0].cap
        ||| self.entity_ids@.len() == self.ids_cap
    }

    /// Position of component `c` in the column list.
    pub open spec fn col_pos(self, c: u32) -> int {
        choose|k: int| 0 <= k < self.columns@.len() && self.columns@[k].component_idx.0 == c
    }

    /// The archetype with no components.
    pub fn empty() -> (r: Archetype)
        ensures
            r.wf(),
            r.index == ArchetypeIdx(0),
            r.entity_ids@ == Seq::<u32>::empty(),
            r.columns@ == Seq::<Column>::empty(),
            r.spec_components() == Seq::<u32>::empty(),
            r.ids_cap == 0,
            forall|c: u32| !r.insert_components.spec_contains(c),
            forall|c: u32| !r.remove_components.spec_contains(c),
            r.refresh_listeners.view() == Seq::<u32>::empty(),
            forall|k: u32| !r.event_listeners.spec_contains(k),
    {
        let r = Archetype {
            index: ArchetypeIdx(0),
            entity_ids: Vec::new(),
            ids_cap: 0,
            columns: Vec::new(),
            insert_components: EdgeMap::new(),
            remove_components: EdgeMap::new(),
            refresh_listeners: ListenerSet::new(),
            event_listeners: EventMap::new(),
        };
        proof {
            assert(r.spec_components() =~= Seq::<u32>::empty());
        }
        r
    }

    /// A fresh archetype for the given sorted component set, with one empty
    /// column per component, laid out from the registry.
    pub fn new(index: ArchetypeIdx, ids: &Vec<u32>, comps: &Components) -> (r: Archetype)
        requires
            comps.wf(),
            forall|i: int, j: int| 0 <= i < j < ids@.len() ==> ids@[i] < ids@[j],
            forall|i: int| 0 <= i < ids@.len() ==> ids@[i] < comps.view().len(),
        ensures
            r.wf(),
            r.index == index,
            r.entity_ids@ == Seq::<u32>::empty(),
            r.ids_cap == 0,
            r.spec_components() == ids@,
            r.columns@.len() == ids@.len(),
            forall|k: int|
                0 <= k < ids@.len() ==> (#[trigger] r.columns@[k]).elem_size
                    == comps.spec_layout_of(ids@[k]).size && r.columns@[k].elem_align
                    == comps.spec_layout_of(ids@[k]).align && r.columns@[k].has_drop
                    == comps.spec_drop_of(ids@[k]) && r.columns@[k].len == 0
                    && r.columns@[k].counts@.pushed == 0 && r.columns@[k].counts@.dropped == 0
                    && r.columns@[k].counts@.moved_in == 0 && r.columns@[k].counts@.moved_out == 0,
            forall|c: u32| !r.insert_components.spec_contains(c),
            forall|c: u32| !r.remove_components.spec_contains(c),
            r.refresh_listeners.view() == Seq::<u32>::empty(),
            forall|k: u32| !r.event_listeners.spec_contains(k),
    {
        let n = ids.len();
        let mut columns: Vec<Column> = Vec::new();
        let mut i: usize = 0;
        while i < n
            invariant
                n == ids@.len(),
                i <= n,
                comps.wf(),
                forall|a: int, b: int| 0 <= a < b < ids@.len() ==> ids@[a] < ids@[b],
                forall|a: int| 0 <= a < ids@.len() ==> ids@[a] < comps.view().len(),
                columns@.len() == i,
                forall|k: int|
                    0 <= k < i ==> (#[trigger] columns@[k]).component_idx.0 == ids@[k],
                forall|k: int| 0 <= k < i ==> (#[trigger] columns@[k]).wf(),
                forall|k: int|
                    0 <= k < i ==> (#[trigger] columns@[k]).elem_size == comps.spec_layout_of(
                        ids@[k],
                    ).size && columns@[k].elem_align == comps.spec_layout_of(ids@[k]).align
                        && columns@[k].has_drop == comps.spec_drop_of(ids@[k]) && columns@[k].len
                        == 0 && columns@[k].counts@.pushed == 0 && columns@[k].counts@.dropped == 0
                        && columns@[k].counts@.moved_in == 0 && columns@[k].counts@.moved_out == 0,
            decreases n - i,
        {
            let c = ids[i];
            let info = match comps.get_by_index(ComponentIdx(c)) {
                Some(info) => info,
                None => unreached(),
            };
            let col = Column::new(ComponentIdx(c), info.layout(), info.drop());
            columns.push(col);
            i += 1;
        }
        let r = Archetype {
            index,
            entity_ids: Vec::new(),
            ids_cap: 0,
            columns,
            insert_components: EdgeMap::new(),
            remove_components: EdgeMap::new(),
            refresh_listeners: ListenerSet::new(),
            event_listeners: EventMap::new(),
        };
        proof {
            assert(r.spec_components() =~= ids@);
        }
        r
    }

    pub fn index(&self) -> (r: ArchetypeIdx)
        ensures
            r == self.index,
    {
        self.index
    }

    /// The number of entities in this archetype.
    pub fn entity_count(&self) -> (r: u32)
        requires
            self.wf(),
        ensures
            r == self.entity_ids@.len(),
    {
        self.entity_ids.len() as u32
    }

    pub fn entity_ids(&self) -> (r: &Vec<u32>)
        ensures
            r@ == self.entity_ids@,
    {
        &self.entity_ids
    }

    pub fn columns(&self) -> (r: &Vec<Column>)
        ensures
            r@ == self.columns@,
    {
        &self.columns
    }

    /// The component indices of this archetype, ascending.
    pub fn component_indices(&self) -> (r: Vec<u32>)
        ensures
            r@ == self.spec_components(),
    {
        let n = self.columns.len();
        let mut r: Vec<u32> = Vec::new();
        let mut i: usize = 0;
        while i < n
            invariant
                n == self.columns@.len(),
                i <= n,
                r@.len() == i,
                forall|k: int| 0 <= k < i ==> r@[k] == self.columns@[k].component_idx.0,
            decreases n - i,
        {
            r.push(self.columns[i].component_index().0);
            i += 1;
        }
        proof {
            assert(r@ =~= self.spec_components());
        }
        r
    }

    /// The column holding component `idx`, if this archetype has it.
    pub fn column_of(&self, idx: ComponentIdx) -> (r: Option<&Column>)
        requires
            self.wf(),
        ensures
            match r {
                Some(col) => self.spec_components().contains(idx.0) && *col
                    == self.columns@[self.col_pos(idx.0)],
                None => !self.spec_components().contains(idx.0),
            },
    {
        let n = self.columns.len();
        let mut i: usize = 0;
        while i < n
            invariant
                n == self.columns@.len(),
                i <= n,
                self.wf(),
                forall|j: int| 0 <= j < i ==> self.columns@[j].component_idx.0 != idx.0,
            decreases n - i,
        {
            if self.columns[i].component_index().0 == idx.0 {
                proof {
                    assert(self.spec_components()[i as int] == idx.0);
                    let c = self.col_pos(idx.0);
                    assert(self.columns@[c].component_idx.0 == idx.0);
                    assert(c == i);
                }
                return Some(&self.columns[i]);
            }
            i += 1;
        }
        proof {
            assert forall|j: int|
                0 <= j < self.spec_components().len() implies self.spec_components()[j]
                != idx.0 by {}
        }
        None
    }

    /// Appends an entity row. The caller supplies the full initial value of
    /// every column, in column order; entering the empty archetype supplies
    /// none. This path fires no notifications: a caller that makes an
    /// archetype nonempty this way must trigger the refreshes itself.
    pub fn add_entity(&mut self, id: u32, values: &Vec<Vec<u8>>) -> (r: ArchetypeRow)
        requires
            old(self).wf(),
            old(self).entity_ids@.len() < u32::MAX,
            values@.len() == old(self).columns@.len(),
            forall|k: int|
                0 <= k < values@.len() ==> (#[trigger] values@[k])@.len() == old(self).columns@[k].elem_size,
            forall|k: int|
                0 <= k < old(self).columns@.len() ==> (#[trigger] old(self).columns@[k]).bytes@.len() + old(self).columns@[k].elem_size <= usize::MAX,
        ensures
            final(self).wf(),
            r == ArchetypeRow(old(self).entity_ids@.len() as u32),
            final(self).entity_ids@ == old(self).entity_ids@.push(id),
            final(self).ids_cap == old(self).grown_ids_cap(),
            final(self).columns@.len() == old(self).columns@.len(),
            forall|k: int|
                0 <= k < old(self).columns@.len() ==> Column::is_pushed(
                    old(self).columns@[k],
                    final(self).columns@[k],
                    values@[k]@,
                    false,
                ),
            final(self).index == old(self).index,
            final(self).insert_components == old(self).insert_components,
            final(self).remove_components == old(self).remove_components,
            final(self).refresh_listeners == old(self).refresh_listeners,
            final(self).event_listeners == old(self).event_listeners,
    {
        let row = ArchetypeRow(self.entity_ids.len() as u32);
        if self.entity_ids.len() == self.ids_cap {
            self.ids_cap = if self.ids_cap == 0 {
                1
            } else if self.ids_cap > usize::MAX / 2 {
                usize::MAX
            } else {
                2 * self.ids_cap
            };
        }
        self.entity_ids.push(id);
        let n = self.columns.len();
        let mut k: usize = 0;
        while k < n
            invariant
                n == self.columns@.len(),
                n == old(self).columns@.len(),
                k <= n,
                values@.len() == n,
                forall|j: int|
                    0 <= j < values@.len() ==> (#[trigger] values@[j])@.len() == old(self).columns@[j].elem_size,
                forall|j: int|
                    0 <= j < n ==> (#[trigger] old(self).columns@[j]).bytes@.len() + old(self).columns@[j].elem_size <= usize::MAX,
                forall|j: int| 0 <= j < n ==> (#[trigger] old(self).columns@[j]).wf(),
                forall|j: int|
                    0 <= j < n ==> (#[trigger] old(self).columns@[j]).len == old(self).entity_ids@.len(),
                old(self).entity_ids@.len() < u32::MAX,
                forall|j: int|
                    0 <= j < k ==> Column::is_pushed(
                        old(self).columns@[j],
                        #[trigger] self.columns@[j],
                        values@[j]@,
                        false,
                    ),
                forall|j: int|
                    0 <= j < k ==> (#[trigger] self.columns@[j]).wf(),
                forall|j: int| k <= j < n ==> self.columns@[j] == old(self).columns@[j],
                *self == (Archetype {
                    columns: self.columns,
                    entity_ids: self.entity_ids,
                    ids_cap: self.ids_cap,
                    ..*old(self)
                }),
                self.entity_ids@ == old(self).entity_ids@.push(id),
                self.ids_cap == old(self).grown_ids_cap(),
            decreases n - k,
        {
            self.columns[k].push(&values[k]);
            k += 1;
        }
        row
    }

    /// The cached insert-edge destination for `c`, if resolved before.
    pub fn insert_edge(&self, c: u32) -> (r: Option<u32>)
        requires
            self.wf(),
        ensures
            r == if self.insert_components.spec_contains(c) {
                Some(self.insert_components.spec_get(c))
            } else {
                None::<u32>
            },
    {
        self.insert_components.get(c)
    }

    /// The cached remove-edge destination for `c`, if resolved before.
    pub fn remove_edge(&self, c: u32) -> (r: Option<u32>)
        requires
            self.wf(),
        ensures
            r == if self.remove_components.spec_contains(c) {
                Some(self.remove_components.spec_get(c))
            } else {
                None::<u32>
            },
    {
        self.remove_components.get(c)
    }

    /// The refresh listeners, ascending by system id.
    pub fn refresh_listener_ids(&self) -> (r: &Vec<u32>)
        ensures
            r@ == self.refresh_listeners.view(),
    {
        self.refresh_listeners.ids()
    }

    /// The priority-ordered listener list for one entity event.
    pub fn system_list_for(&self, idx: u32) -> (r: Option<&SystemList>)
        requires
            self.wf(),
        ensures
            match r {
                Some(list) => self.event_listeners.spec_contains(idx) && list.view()
                    == self.event_listeners.spec_get(idx),
                None => !self.event_listeners.spec_contains(idx),
            },
    {
        self.event_listeners.get(idx)
    }

    /// Whether any component the system's access descriptor touches has a
    /// column here.
    pub open spec fn spec_access_touches(self, info: SystemInfo) -> bool {
        exists|k: int| 0 <= k < self.columns@.len() && info.access@.contains(self.columns@[k].component_idx.0)
    }

    /// Whether the system structurally matches this archetype: its access
    /// touches a column here and its predicate holds of the component set.
    pub open spec fn spec_matches(self, info: SystemInfo) -> bool {
        self.spec_access_touches(info) && info.expr.eval_spec(self.spec_components())
    }

    /// Whether the system listens for an entity event whose predicate holds
    /// of this archetype.
    pub open spec fn spec_event_matches(self, info: SystemInfo) -> bool {
        &&& info.entity_event is Some
        &&& info.entity_event_expr is Some
        &&& info.entity_event_expr->0.eval_spec(self.spec_components())
    }

    /// Registers one system on this archetype. A structural match adds the
    /// system to the refresh listeners and yields the `New` notification
    /// owed to it; an entity-event match inserts it into that event's
    /// priority-ordered listener list.
    pub fn register_system(&mut self, info: &SystemInfo) -> (r: Option<Notification>)
        requires
            old(self).wf(),
        ensures
            final(self).wf(),
            r == if old(self).spec_matches(*info) {
                Some(
                    Notification {
                        reason: RefreshArchetypeReason::New,
                        archetype: old(self).index,
                        system: info.id,
                    },
                )
            } else {
                None::<Notification>
            },
            *final(self) == (Archetype {
                refresh_listeners: final(self).refresh_listeners,
                event_listeners: final(self).event_listeners,
                ..*old(self)
            }),
            old(self).spec_matches(*info) ==> (forall|x: u32|
                final(self).refresh_listeners.spec_contains(x) <==> (old(self).refresh_listeners.spec_contains(x) || x == info.id)),
            !old(self).spec_matches(*info) ==> final(self).refresh_listeners == old(self).refresh_listeners,
            old(self).spec_matches(*info) && old(self).refresh_listeners.spec_contains(info.id)
                ==> final(self).refresh_listeners == old(self).refresh_listeners,
            !old(self).spec_event_matches(*info) ==> final(self).event_listeners == old(self).event_listeners,
            old(self).spec_event_matches(*info) ==> ({
                let k = info.entity_event->0;
                &&& final(self).event_listeners.spec_contains(k)
                &&& old(self).event_listeners.spec_contains(k) ==> final(self).event_listeners.spec_get(k) == old(self).event_listeners.spec_get(k).insert(
                    insert_pos(old(self).event_listeners.spec_get(k), info.priority),
                    (info.id, info.priority),
                )
                &&& !old(self).event_listeners.spec_contains(k) ==> final(self).event_listeners.spec_get(k) == seq![(info.id, info.priority)]
                &&& forall|k2: u32|
                    k2 != k ==> final(self).event_listeners.spec_contains(k2) == old(self).event_listeners.spec_contains(k2)
                &&& forall|k2: u32|
                    k2 != k && old(self).event_listeners.spec_contains(k2) ==> final(self).event_listeners.spec_get(k2) == old(self).event_listeners.spec_get(k2)
            }),
    {
        let comps = self.component_indices();
        let n = self.columns.len();
        let mut touched = false;
        let mut k: usize = 0;
        while k < n
            invariant
                n == self.columns@.len(),
                k <= n,
                touched == exists|j: int|
                    0 <= j < k && info.access@.contains(self.columns@[j].component_idx.0),
            decreases n - k,
        {
            if contains_u32(&info.access, self.columns[k].component_index().0) {
                touched = true;
            }
            k += 1;
        }
        let matched = touched && info.expr.eval(&comps);
        let r = if matched {
            self.refresh_listeners.insert(info.id);
            Some(
                Notification {
                    reason: RefreshArchetypeReason::New,
                    archetype: self.index,
                    system: info.id,
                },
            )
        } else {
            None
        };
        if let Some(ee) = info.entity_event {
            if let Some(ex) = &info.entity_event_expr {
                if ex.eval(&comps) {
                    self.event_listeners.insert_system(ee, info.id, info.priority);
                }
            }
        }
        r
    }
}

/// What registering one system does to one archetype: only the listener
/// sets change, and the system joins the refresh listeners exactly when it
/// structurally matches.
pub open spec fn reg_effect(a0: Archetype, a1: Archetype, info: SystemInfo) -> bool {
    &&& a1 == (Archetype {
        refresh_listeners: a1.refresh_listeners,
        event_listeners: a1.event_listeners,
        ..a0
    })
    &&& a0.spec_matches(info) ==> forall|x: u32|
        a1.refresh_listeners.spec_contains(x) <==> (a0.refresh_listeners.spec_contains(x) || x
            == info.id)
    &&& !a0.spec_matches(info) ==> a1.refresh_listeners == a0.refresh_listeners
}

/// Row/column length lockstep: in a well-formed archetype every column has
/// exactly as many elements as there are entity ids.
pub proof fn lemma_row_column_lockstep(a: Archetype)
    requires
        a.wf(),
    ensures
        forall|i: int|
            0 <= i < a.columns@.len() ==> (#[trigger] a.columns@[i]).len
                == a.entity_ids@.len(),
{
}

/// Sorted columns: in a well-formed archetype the columns are strictly
/// ascending by component index, so no component appears twice.
pub proof fn lemma_sorted_columns(a: Archetype)
    requires
        a.wf(),
    ensures
        forall|i: int, j: int|
            0 <= i < j < a.columns@.len() ==> a.columns@[i].component_idx.0
                < a.columns@[j].component_idx.0,
{
}

/// A system's structural match depends only on the columns: two
/// archetypes with the same column list match the same systems.
pub proof fn lemma_matches_same(a0: Archetype, a1: Archetype, info: SystemInfo)
    requires
        a1.columns@ == a0.columns@,
    ensures
        a1.spec_components() == a0.spec_components(),
        a1.spec_matches(info) == a0.spec_matches(info),
{
    assert(a1.spec_components() =~= a0.spec_components());
    if a0.spec_access_touches(info) {
        let k = choose|k: int|
            0 <= k < a0.columns@.len() && info.access@.contains(a0.columns@[k].component_idx.0);
        assert(info.access@.contains(a1.columns@[k].component_idx.0));
    }
    if a1.spec_access_touches(info) {
        let k = choose|k: int|
            0 <= k < a1.columns@.len() && info.access@.contains(a1.columns@[k].component_idx.0);
        assert(info.access@.contains(a0.columns@[k].component_idx.0));
    }
}

/// How many of the first `upto` destination columns hold a component the
/// source set lacks: the number of caller-supplied values those columns
/// consume.
pub open spec fn only_count(dst: Seq<Column>, src_set: Seq<u32>, upto: int) -> int
    decreases upto,
{
    if upto <= 0 {
        0
    } else {
        only_count(dst, src_set, upto - 1) + (if src_set.contains(dst[upto - 1].component_idx.0) {
            0int
        } else {
            1int
        })
    }
}

proof fn lemma_only_count_mono(dst: Seq<Column>, src_set: Seq<u32>, a: int, b: int)
    requires
        0 <= a <= b,
    ensures
        only_count(dst, src_set, a) <= only_count(dst, src_set, b),
        only_count(dst, src_set, b) - only_count(dst, src_set, a) <= b - a,
    decreases b - a,
{
    if a < b {
        lemma_only_count_mono(dst, src_set, a, b - 1);
    }
}

/// The caller-supplied values of one move match the destination's extra
/// columns: one value per destination-only column, in component-index
/// order, each of that column's element size.
pub open spec fn new_values_ok(src: Archetype, dst: Archetype, vals: Seq<(u32, Vec<u8>)>) -> bool {
    &&& vals.len() == only_count(dst.columns@, src.spec_components(), dst.columns@.len() as int)
    &&& forall|k: int|
        0 <= k < dst.columns@.len() && !src.spec_components().contains(
            (#[trigger] dst.columns@[k]).component_idx.0,
        ) ==> {
            let p = only_count(dst.columns@, src.spec_components(), k);
            vals[p].0 == dst.columns@[k].component_idx.0 && vals[p].1@.len()
                == dst.columns@[k].elem_size
        }
}

/// What one row move did, beyond the column updates.
pub struct MoveOutcome {
    /// The moved entity's new row in the destination.
    pub dst_row: u32,
    /// The id of the moved entity.
    pub moved_entity: u32,
    /// The id now sitting at the vacated source row, where the
    /// swap-removal reordered one.
    pub swapped_entity: Option<u32>,
    /// Whether the destination's storage may have reallocated, judged by
    /// capacity before the mutation.
    pub reallocated: bool,
}

/// The value appended to destination column `k` by a move: the source's
/// element at the moved row for a shared component, else the matching
/// caller-supplied value.
pub open spec fn moved_value(
    src: Archetype,
    dst: Archetype,
    vals: Seq<(u32, Vec<u8>)>,
    row: int,
    k: int,
) -> Seq<u8> {
    if src.spec_components().contains(dst.columns@[k].component_idx.0) {
        src.columns@[src.col_pos(dst.columns@[k].component_idx.0)].elems()[row]
    } else {
        vals[only_count(dst.columns@, src.spec_components(), k)].1@
    }
}

/// Moves the row `row` of `src` into a fresh row of `dst` by a two-finger
/// merge over the sorted column lists: a component only in `src` is
/// dropped, a shared component's element is transferred, and a component
/// only in `dst` consumes the next caller-supplied value. The entity id
/// follows; edges and listeners of both archetypes stay as they were.
pub(crate) fn move_row(
    src: &mut Archetype,
    dst: &mut Archetype,
    row: usize,
    new_components: &Vec<(u32, Vec<u8>)>,
) -> (r: MoveOutcome)
    requires
        old(src).wf(),
        old(dst).wf(),
        row < old(src).entity_ids@.len(),
        old(dst).entity_ids@.len() < u32::MAX,
        new_values_ok(*old(src), *old(dst), new_components@),
        forall|k: int|
            0 <= k < old(dst).columns@.len() ==> (#[trigger] old(dst).columns@[k]).bytes@.len()
                + old(dst).columns@[k].elem_size <= usize::MAX,
        forall|k: int, j: int|
            0 <= k < old(dst).columns@.len() && 0 <= j < old(src).columns@.len() && (#[trigger] old(
                dst,
            ).columns@[k]).component_idx == (#[trigger] old(src).columns@[j]).component_idx ==> old(
                dst,
            ).columns@[k].elem_size == old(src).columns@[j].elem_size,
    ensures
        final(src).wf(),
        final(dst).wf(),
        r.dst_row == old(dst).entity_ids@.len(),
        r.reallocated == old(dst).spec_will_reallocate(),
        r.moved_entity == old(src).entity_ids@[row as int],
        final(src).entity_ids@ == swap_removed(old(src).entity_ids@, row as int),
        final(dst).entity_ids@ == old(dst).entity_ids@.push(r.moved_entity),
        r.swapped_entity == if (row as int) < final(src).entity_ids@.len() {
            Some(final(src).entity_ids@[row as int])
        } else {
            None::<u32>
        },
        final(dst).ids_cap == old(dst).grown_ids_cap(),
        final(src).columns@.len() == old(src).columns@.len(),
        final(dst).columns@.len() == old(dst).columns@.len(),
        forall|j: int|
            0 <= j < old(src).columns@.len() ==> Column::is_removed_at(
                old(src).columns@[j],
                #[trigger] final(src).columns@[j],
                row as int,
                !old(dst).spec_components().contains(old(src).columns@[j].component_idx.0),
            ),
        forall|k: int|
            0 <= k < old(dst).columns@.len() ==> Column::is_pushed(
                old(dst).columns@[k],
                #[trigger] final(dst).columns@[k],
                moved_value(*old(src), *old(dst), new_components@, row as int, k),
                old(src).spec_components().contains(old(dst).columns@[k].component_idx.0),
            ),
        *final(src) == (Archetype {
            entity_ids: final(src).entity_ids,
            columns: final(src).columns,
            ..*old(src)
        }),
        *final(dst) == (Archetype {
            entity_ids: final(dst).entity_ids,
            columns: final(dst).columns,
            ids_cap: final(dst).ids_cap,
            ..*old(dst)
        }),
{
    let ns = src.columns.len();
    let nd = dst.columns.len();
    let col_full = if nd > 0 {
        dst.columns[0].len() == dst.columns[0].capacity()
    } else {
        false
    };
    let reallocated = col_full || dst.entity_ids.len() == dst.ids_cap;
    let mut si: usize = 0;
    let mut di: usize = 0;
    let mut ni: usize = 0;
    while si < ns || di < nd
        invariant
            ns == src.columns@.len(),
            ns == old(src).columns@.len(),
            nd == dst.columns@.len(),
            nd == old(dst).columns@.len(),
            si <= ns,
            di <= nd,
            ni == only_count(old(dst).columns@, old(src).spec_components(), di as int),
            old(src).wf(),
            old(dst).wf(),
            row < old(src).entity_ids@.len(),
            old(dst).entity_ids@.len() < u32::MAX,
            new_values_ok(*old(src), *old(dst), new_components@),
            forall|k: int|
                0 <= k < nd ==> (#[trigger] old(dst).columns@[k]).bytes@.len() + old(
                    dst,
                ).columns@[k].elem_size <= usize::MAX,
            forall|k: int, j: int|
                0 <= k < nd && 0 <= j < ns && (#[trigger] old(dst).columns@[k]).component_idx
                    == (#[trigger] old(src).columns@[j]).component_idx ==> old(
                    dst,
                ).columns@[k].elem_size == old(src).columns@[j].elem_size,
            si < ns ==> forall|b: int|
                0 <= b < di ==> (#[trigger] old(dst).columns@[b]).component_idx.0 < old(
                    src,
                ).columns@[si as int].component_idx.0,
            di < nd ==> forall|a: int|
                0 <= a < si ==> (#[trigger] old(src).columns@[a]).component_idx.0 < old(
                    dst,
                ).columns@[di as int].component_idx.0,
            forall|j: int|
                0 <= j < si ==> Column::is_removed_at(
                    old(src).columns@[j],
                    #[trigger] src.columns@[j],
                    row as int,
                    !old(dst).spec_components().contains(old(src).columns@[j].component_idx.0),
                ),
            forall|j: int|
                0 <= j < si ==> (#[trigger] src.columns@[j]).wf(),
            forall|j: int| si <= j < ns ==> src.columns@[j] == old(src).columns@[j],
            forall|k: int|
                0 <= k < di ==> Column::is_pushed(
                    old(dst).columns@[k],
                    #[trigger] dst.columns@[k],
                    moved_value(*old(src), *old(dst), new_components@, row as int, k),
                    old(src).spec_components().contains(old(dst).columns@[k].component_idx.0),
                ),
            forall|k: int|
                0 <= k < di ==> (#[trigger] dst.columns@[k]).wf(),
            forall|k: int| di <= k < nd ==> dst.columns@[k] == old(dst).columns@[k],
            *src == (Archetype { columns: src.columns, ..*old(src) }),
            *dst == (Archetype { columns: dst.columns, ..*old(dst) }),
        decreases (ns - si) + (nd - di),
    {
        let ghost srcset = old(src).spec_components();
        let ghost dstset = old(dst).spec_components();
        if di >= nd || (si < ns && src.columns[si].component_index().0
            < dst.columns[di].component_index().0) {
            // Only in the source: the departing component's element is
            // dropped.
            proof {
                let c = old(src).columns@[si as int].component_idx.0;
                assert forall|b: int| 0 <= b < nd implies old(dst).columns@[b].component_idx.0
                    != c by {
                    if b >= di {
                        assert(old(dst).columns@[di as int].component_idx.0
                            <= old(dst).columns@[b].component_idx.0);
                    }
                }
                assert(!dstset.contains(c)) by {
                    assert forall|b: int| 0 <= b < dstset.len() implies dstset[b] != c by {}
                }
            }
            src.columns[si].swap_remove(row);
            si += 1;
        } else if si >= ns || src.columns[si].component_index().0
            > dst.columns[di].component_index().0 {
            // Only in the destination: consume the next caller-supplied
            // value.
            proof {
                let c = old(dst).columns@[di as int].component_idx.0;
                assert forall|a: int| 0 <= a < ns implies old(src).columns@[a].component_idx.0
                    != c by {
                    if a >= si {
                        assert(old(src).columns@[si as int].component_idx.0
                            <= old(src).columns@[a].component_idx.0);
                    }
                }
                assert(!srcset.contains(c)) by {
                    assert forall|a: int| 0 <= a < srcset.len() implies srcset[a] != c by {}
                }
                lemma_only_count_mono(
                    old(dst).columns@,
                    srcset,
                    di as int + 1,
                    nd as int,
                );
                assert(ni < new_components@.len());
            }
            let nv = new_components.len();
            dst.columns[di].push(&new_components[ni].1);
            ni += 1;
            di += 1;
        } else {
            // Shared component: ownership of the element transfers.
            proof {
                let c = old(src).columns@[si as int].component_idx.0;
                assert(srcset.contains(c)) by {
                    assert(srcset[si as int] == c);
                }
                assert(dstset.contains(c)) by {
                    assert(dstset[di as int] == c);
                }
                let p = old(src).col_pos(c);
                assert(old(src).columns@[p].component_idx.0 == c);
                assert(p == si) by {
                    if p < si {
                        assert(old(src).columns@[p].component_idx.0
                            < old(src).columns@[si as int].component_idx.0);
                    } else if p > si {
                        assert(old(src).columns@[si as int].component_idx.0
                            < old(src).columns@[p].component_idx.0);
                    }
                }
            }
            let dcol = &mut dst.columns[di];
            src.columns[si].transfer_elem(dcol, row);
            si += 1;
            di += 1;
        }
    }
    let moved_entity = src.entity_ids.swap_remove(row);
    if dst.entity_ids.len() == dst.ids_cap {
        dst.ids_cap = if dst.ids_cap == 0 {
            1
        } else if dst.ids_cap > usize::MAX / 2 {
            usize::MAX
        } else {
            2 * dst.ids_cap
        };
    }
    let dst_row = dst.entity_ids.len() as u32;
    dst.entity_ids.push(moved_entity);
    let swapped_entity = if row < src.entity_ids.len() {
        Some(src.entity_ids[row])
    } else {
        None
    };
    MoveOutcome { dst_row, moved_entity, swapped_entity, reallocated }
}

} // verus!
