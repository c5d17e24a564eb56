//! The system side of the refresh protocol: the descriptor a system hands in
//! when it registers, the structural predicate it matches archetypes with,
//! priority-ordered listener lists for entity events, and the notification
//! records through which an archetype tells its listeners about structural
//! changes.

use vstd::prelude::*;

use crate::archetype::ArchetypeIdx;

verus! {

/// Why a system is asked to refresh its view of an archetype.
#[derive(Clone, Copy, PartialEq, Eq, Structural, Debug)]
pub enum RefreshArchetypeReason {
    /// The system newly matches the archetype.
    New,
    /// The matched archetype went from empty to one row.
    Nonempty,
    /// The matched archetype went to zero rows.
    Empty,
    /// At least one column base address of the archetype may have changed.
    RefreshPointers,
}

/// One refresh call owed to a system, in delivery order.
#[derive(Clone, Copy, PartialEq, Eq, Structural, Debug)]
pub struct Notification {
    pub reason: RefreshArchetypeReason,
    pub archetype: ArchetypeIdx,
    pub system: u32,
}

/// The refresh calls owed to a list of listeners, one per listener, in
/// listener order.
pub open spec fn notif_seq(
    listeners: Seq<u32>,
    reason: RefreshArchetypeReason,
    archetype: ArchetypeIdx,
) -> Seq<Notification> {
    Seq::new(listeners.len(), |i: int| Notification { reason, archetype, system: listeners[i] })
}

/// A boolean expression over "has component `c`": the structural predicate
/// with which a system picks its archetypes.
#[derive(Debug)]
pub enum HasExpr {
    Lit(bool),
    Has(u32),
    Not(Box<HasExpr>),
    And(Box<HasExpr>, Box<HasExpr>),
    Or(Box<HasExpr>, Box<HasExpr>),
}

impl HasExpr {
    /// The predicate's value against a component-index set.
    pub open spec fn eval_spec(self, comps: Seq<u32>) -> bool
        decreases self,
    {
        match self {
            HasExpr::Lit(b) => b,
            HasExpr::Has(c) => comps.contains(c),
            HasExpr::Not(a) => !a.eval_spec(comps),
            HasExpr::And(a, b) => a.eval_spec(comps) && b.eval_spec(comps),
            HasExpr::Or(a, b) => a.eval_spec(comps) || b.eval_spec(comps),
        }
    }

    /// Evaluates the predicate against the component indices in `comps`.
    pub fn eval(&self, comps: &Vec<u32>) -> (r: bool)
        ensures
            r == self.eval_spec(comps@),
        decreases *self,
    {
        match self {
            HasExpr::Lit(b) => *b,
            HasExpr::Has(c) => contains_u32(comps, *c),
            HasExpr::Not(a) => !a.eval(comps),
            HasExpr::And(a, b) => {
                let ra = a.eval(comps);
                ra && b.eval(comps)
            },
            HasExpr::Or(a, b) => {
                let ra = a.eval(comps);
                ra || b.eval(comps)
            },
        }
    }
}

/// Whether `v` holds the value `c`.
pub fn contains_u32(v: &Vec<u32>, c: u32) -> (r: bool)
    ensures
        r == v@.contains(c),
{
    let n = v.len();
    let mut i: usize = 0;
    while i < n
        invariant
            n == v@.len(),
            i <= n,
            forall|j: int| 0 <= j < i ==> v@[j] != c,
        decreases n - i,
    {
        if v[i] == c {
            return true;
        }
        i += 1;
    }
    false
}

/// What the core reads of one registered system: its stable id, its
/// dispatch priority, the components its access descriptor touches, its
/// structural predicate, and, for a system that receives an entity event,
/// that event's index and the targeted-entity predicate.
#[derive(Debug)]
pub struct SystemInfo {
    pub id: u32,
    pub priority: u32,
    pub access: Vec<u32>,
    pub expr: HasExpr,
    pub entity_event: Option<u32>,
    pub entity_event_expr: Option<HasExpr>,
}

/// A list of systems ordered by ascending priority, stable across equal
/// priorities by insertion order. Entries are `(system id, priority)`.
#[derive(Debug)]
pub struct SystemList {
    pub entries: Vec<(u32, u32)>,
}

/// The position at which a system of priority `p` is inserted: after every
/// entry whose priority is at most `p`.
pub open spec fn insert_pos(s: Seq<(u32, u32)>, p: u32) -> int
    decreases s.len(),
{
    if s.len() == 0 {
        0
    } else if s[0].1 <= p {
        1 + insert_pos(s.drop_first(), p)
    } else {
        0
    }
}

proof fn lemma_insert_pos(s: Seq<(u32, u32)>, p: u32, i: int)
    requires
        0 <= i <= s.len(),
        forall|j: int| 0 <= j < i ==> s[j].1 <= p,
        i < s.len() ==> s[i].1 > p,
    ensures
        insert_pos(s, p) == i,
    decreases s.len(),
{
    if s.len() == 0 {
    } else if i == 0 {
    } else {
        assert(s[0].1 <= p);
        lemma_insert_pos(s.drop_first(), p, i - 1);
    }
}

impl SystemList {
    pub open spec fn wf(self) -> bool {
        forall|i: int, j: int|
            0 <= i < j < self.entries@.len() ==> self.entries@[i].1 <= self.entries@[j].1
    }

    pub open spec fn view(self) -> Seq<(u32, u32)> {
        self.entries@
    }

    pub fn new() -> (r: Self)
        ensures
            r.wf(),
            r.view() == Seq::<(u32, u32)>::empty(),
    {
        SystemList { entries: Vec::new() }
    }

    pub fn entries(&self) -> (r: &Vec<(u32, u32)>)
        ensures
            r@ == self.view(),
    {
        &self.entries
    }

    /// Inserts a system at its priority position: after all entries of
    /// equal or lower priority.
    pub fn insert(&mut self, id: u32, priority: u32)
        requires
            old(self).wf(),
        ensures
            final(self).wf(),
            final(self).view() == old(self).view().insert(
                insert_pos(old(self).view(), priority),
                (id, priority),
            ),
    {
        let n = self.entries.len();
        let mut i: usize = 0;
        while i < n && self.entries[i].1 <= priority
            invariant
                n == self.entries@.len(),
                i <= n,
                self.wf(),
                forall|j: int| 0 <= j < i ==> self.entries@[j].1 <= priority,
            decreases n - i,
        {
            i += 1;
        }
        proof {
            lemma_insert_pos(self.entries@, priority, i as int);
        }
        self.entries.insert(i, (id, priority));
        proof {
            let s0 = old(self).entries@;
            let s1 = self.entries@;
            assert forall|a: int, b: int| 0 <= a < b < s1.len() implies s1[a].1 <= s1[b].1 by {
                if a == i {
                    assert(s1[b] == s0[b - 1] && b - 1 >= i);
                } else if b == i {
                    assert(s1[a] == s0[a] && a < i);
                } else if a < i && b > i {
                    assert(s1[a] == s0[a] && s1[b] == s0[b - 1] && a <= b - 1);
                    if a < b - 1 {
                    } else {
                        assert(s0[a].1 <= priority);
                    }
                }
            }
        }
    }
}

/// The entity-event listener lists of one archetype, keyed by entity-event
/// index. Keys are unique.
#[derive(Debug)]
pub struct EventMap {
    pub pairs: Vec<(u32, SystemList)>,
}

impl EventMap {
    pub open spec fn wf(self) -> bool {
        &&& forall|i: int, j: int|
            0 <= i < j < self.pairs@.len() ==> self.pairs@[i].0 != self.pairs@[j].0
        &&& forall|i: int| 0 <= i < self.pairs@.len() ==> (#[trigger] self.pairs@[i]).1.wf()
    }

    pub open spec fn spec_contains(self, k: u32) -> bool {
        exists|i: int| 0 <= i < self.pairs@.len() && self.pairs@[i].0 == k
    }

    pub open spec fn spec_get(self, k: u32) -> Seq<(u32, u32)> {
        self.pairs@[choose|i: int| 0 <= i < self.pairs@.len() && self.pairs@[i].0 == k].1.view()
    }

    pub fn new() -> (r: Self)
        ensures
            r.wf(),
            forall|k: u32| !r.spec_contains(k),
    {
        EventMap { pairs: Vec::new() }
    }

    /// The listener list for one entity-event index.
    pub fn get(&self, k: u32) -> (r: Option<&SystemList>)
        requires
            self.wf(),
        ensures
            match r {
                Some(list) => self.spec_contains(k) && list.view() == self.spec_get(k)
                    && list.wf(),
                None => !self.spec_contains(k),
            },
    {
        let n = self.pairs.len();
        let mut i: usize = 0;
        while i < n
            invariant
                n == self.pairs@.len(),
                i <= n,
                self.wf(),
                forall|j: int| 0 <= j < i ==> self.pairs@[j].0 != k,
            decreases n - i,
        {
            if self.pairs[i].0 == k {
                proof {
                    let c = choose|j: int| 0 <= j < self.pairs@.len() && self.pairs@[j].0 == k;
                    assert(c == i);
                }
                return Some(&self.pairs[i].1);
            }
            i += 1;
        }
        None
    }

    /// Inserts a system into the listener list of event `k` at its priority
    /// position, creating the list on first use.
    pub fn insert_system(&mut self, k: u32, id: u32, priority: u32)
        requires
            old(self).wf(),
        ensures
            final(self).wf(),
            final(self).spec_contains(k),
            old(self).spec_contains(k) ==> final(self).spec_get(k) == old(self).spec_get(
                k,
            ).insert(insert_pos(old(self).spec_get(k), priority), (id, priority)),
            !old(self).spec_contains(k) ==> final(self).spec_get(k) == seq![(id, priority)],
            forall|k2: u32|
                k2 != k ==> final(self).spec_contains(k2) == old(self).spec_contains(k2),
            forall|k2: u32|
                k2 != k && old(self).spec_contains(k2) ==> final(self).spec_get(k2) == old(self).spec_get(k2),
    {
        let n = self.pairs.len();
        let mut i: usize = 0;
        while i < n
            invariant
                n == self.pairs@.len(),
                i <= n,
                self.wf(),
                *self == *old(self),
                forall|j: int| 0 <= j < i ==> self.pairs@[j].0 != k,
            decreases n - i,
        {
            if self.pairs[i].0 == k {
                proof {
                    let c = choose|j: int| 0 <= j < self.pairs@.len() && self.pairs@[j].0 == k;
                    assert(c == i);
                }
                self.pairs[i].1.insert(id, priority);
                proof {
                    assert(self.pairs@[i as int].0 == k);
                    let c = choose|j: int| 0 <= j < self.pairs@.len() && self.pairs@[j].0 == k;
                    assert(c == i);
                    assert forall|k2: u32|
                        k2 != k && old(self).spec_contains(k2) implies final(self).spec_contains(
                        k2,
                    ) && final(self).spec_get(k2) == old(self).spec_get(k2) by {
                        let a = choose|j: int|
                            0 <= j < old(self).pairs@.len() && old(self).pairs@[j].0 == k2;
                        assert(self.pairs@[a].0 == k2);
                        let b = choose|j: int|
                            0 <= j < self.pairs@.len() && self.pairs@[j].0 == k2;
                        assert(b == a);
                    }
                    assert forall|k2: u32|
                        k2 != k && final(self).spec_contains(k2) implies old(self).spec_contains(
                        k2,
                    ) by {
                        let a = choose|j: int|
                            0 <= j < self.pairs@.len() && self.pairs@[j].0 == k2;
                        assert(old(self).pairs@[a].0 == k2);
                    }
                }
                return ;
            }
            i += 1;
        }
        let mut list = SystemList::new();
        list.insert(id, priority);
        let ghost listv = list.view();
        self.pairs.push((k, list));
        proof {
            assert(listv =~= seq![(id, priority)]);
            assert(self.pairs@[n as int].0 == k);
            let c = choose|j: int| 0 <= j < self.pairs@.len() && self.pairs@[j].0 == k;
            assert(c == n);
            assert forall|i2: int, j2: int|
                0 <= i2 < j2 < self.pairs@.len() implies self.pairs@[i2].0 != self.pairs@[j2].0 by {
                if j2 == n {
                    assert(old(self).pairs@[i2].0 == self.pairs@[i2].0);
                }
            }
            assert forall|k2: u32| k2 != k && final(self).spec_contains(k2) implies old(self).spec_contains(k2) by {
                let a = choose|j: int| 0 <= j < self.pairs@.len() && self.pairs@[j].0 == k2;
                assert(a < n);
                assert(old(self).pairs@[a].0 == k2);
            }
            assert forall|k2: u32| k2 != k && old(self).spec_contains(k2) implies final(self).spec_contains(k2) && final(self).spec_get(k2) == old(self).spec_get(k2) by {
                let a = choose|j: int|
                    0 <= j < old(self).pairs@.len() && old(self).pairs@[j].0 == k2;
                assert(self.pairs@[a].0 == k2);
                let b = choose|j: int| 0 <= j < self.pairs@.len() && self.pairs@[j].0 == k2;
                assert(b == a);
                let b0 = choose|j: int|
                    0 <= j < old(self).pairs@.len() && old(self).pairs@[j].0 == k2;
                assert(b0 == a);
            }
        }
    }
}

} // verus!
