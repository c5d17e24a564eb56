//! The entity index: a dense map from entity id to the entity's current
//! location, an `(archetype, row)` pair. The graph patches it on every move.

use vstd::prelude::*;

use crate::archetype::ArchetypeIdx;
use crate::archetype::ArchetypeRow;

verus! {

/// Where one live entity currently sits.
#[derive(Clone, Copy, PartialEq, Eq, Structural, Debug)]
pub struct EntityLocation {
    pub archetype: ArchetypeIdx,
    pub row: ArchetypeRow,
}

/// Dense map from entity id to location. Ids are allocated here only for
/// the sake of callers; the graph itself relies on lookup and patching
/// alone.
#[derive(Debug)]
pub struct Entities {
    pub locs: Vec<Option<EntityLocation>>,
}

impl Entities {
    pub open spec fn view(self) -> Seq<Option<EntityLocation>> {
        self.locs@
    }

    pub open spec fn spec_get(self, e: u32) -> Option<EntityLocation> {
        if e < self.locs@.len() {
            self.locs@[e as int]
        } else {
            None
        }
    }

    pub fn new() -> (r: Self)
        ensures
            r.view() == Seq::<Option<EntityLocation>>::empty(),
    {
        Entities { locs: Vec::new() }
    }

    pub fn len(&self) -> (r: usize)
        ensures
            r == self.view().len(),
    {
        self.locs.len()
    }

    /// The location of entity `e`, or `None` for an id that is dead or was
    /// never allocated.
    pub fn get(&self, e: u32) -> (r: Option<EntityLocation>)
        ensures
            r == self.spec_get(e),
    {
        if (e as usize) < self.locs.len() {
            self.locs[e as usize]
        } else {
            None
        }
    }

    /// Allocates the next entity id with the given starting location.
    pub fn spawn(&mut self, loc: EntityLocation) -> (r: u32)
        requires
            old(self).view().len() < u32::MAX,
        ensures
            r == old(self).view().len() as u32,
            final(self).view() == old(self).view().push(Some(loc)),
    {
        let id = self.locs.len() as u32;
        self.locs.push(Some(loc));
        id
    }

    /// Overwrites the location of a live entity: the mutation path the
    /// graph uses when a move relocates or reorders rows.
    pub fn set_location(&mut self, e: u32, loc: EntityLocation)
        requires
            e < old(self).view().len(),
            old(self).view()[e as int] is Some,
        ensures
            final(self).view() == old(self).view().update(e as int, Some(loc)),
    {
        self.locs[e as usize] = Some(loc);
    }
}

} // verus!
