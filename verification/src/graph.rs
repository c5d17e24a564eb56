//! The archetype graph: all archetypes of one world, keyed both by dense
//! index and by component set, with cached single-component insert/remove
//! edges resolved by `traverse_insert` / `traverse_remove`, and
//! `move_entity` relocating one entity's row between two archetypes.
//!
//! The archetypes live in a `slab::Slab` arena yielding stable numeric
//! keys; since archetypes are never destroyed the keys stay dense.

use vstd::prelude::*;

use slab::Slab;

use crate::archetype::Archetype;
use crate::archetype::ArchetypeIdx;
use crate::archetype::ArchetypeRow;
use crate::archetype::MoveOutcome;
use crate::archetype::move_row;
use crate::archetype::moved_value;
use crate::archetype::new_values_ok;
use crate::column::swap_removed;
use crate::entity::Entities;
use crate::entity::EntityLocation;
use crate::system::notif_seq;
use crate::column::Column;
use crate::component::ComponentIdx;
use crate::component::Components;
use crate::system::Notification;
use crate::system::RefreshArchetypeReason;
use crate::system::SystemInfo;

verus! {

#[verifier::external_type_specification]
#[verifier::external_body]
#[verifier::reject_recursive_types(T)]
pub struct ExSlab<T>(Slab<T>);

/// The occupied entries of the arena, by key.
pub uninterp spec fn slab_entries(s: Slab<Archetype>) -> Map<int, Archetype>;

/// The key the next insertion uses (the arena's `next` cursor).
pub uninterp spec fn slab_next(s: Slab<Archetype>) -> int;

/// The length of the arena's underlying entry array, occupied or vacant.
pub uninterp spec fn slab_slots(s: Slab<Archetype>) -> int;

/// Relies on slab::Slab::new: no entries, empty entry array, next vacant
/// key 0.
#[verifier::external_body]
fn slab_new() -> (r: Slab<Archetype>)
    ensures
        forall|i: int| !slab_entries(r).contains_key(i),
        slab_next(r) == 0,
        slab_slots(r) == 0,
{
    Slab::new()
}

/// Relies on slab::Slab::vacant_key: the key the next insertion will use.
#[verifier::external_body]
fn slab_vacant_key(s: &Slab<Archetype>) -> (r: usize)
    ensures
        r as int == slab_next(*s),
{
    s.vacant_key()
}

/// Relies on slab::Slab::insert: the value lands under the next vacant
/// key, which was not occupied; when that key equals the entry-array
/// length, the array grows by one and the cursor advances past it.
#[verifier::external_body]
fn slab_insert(s: &mut Slab<Archetype>, a: Archetype) -> (r: usize)
    ensures
        r as int == slab_next(*old(s)),
        !slab_entries(*old(s)).contains_key(r as int),
        slab_entries(*final(s)) == slab_entries(*old(s)).insert(r as int, a),
        slab_next(*old(s)) == slab_slots(*old(s)) ==> slab_next(*final(s)) == r as int + 1
            && slab_slots(*final(s)) == slab_slots(*old(s)) + 1,
{
    s.insert(a)
}

/// Relies on slab::Slab::get: `Some` exactly at an occupied key.
#[verifier::external_body]
fn slab_get(s: &Slab<Archetype>, key: usize) -> (r: Option<&Archetype>)
    ensures
        match r {
            Some(a) => slab_entries(*s).contains_key(key as int) && *a == slab_entries(
                *s,
            )[key as int],
            None => !slab_entries(*s).contains_key(key as int),
        },
{
    s.get(key)
}

/// Relies on slab::Slab::get_mut: exchanges the value under an occupied
/// key, leaving every other entry, the vacant cursor and the entry array
/// as they were.
#[verifier::external_body]
fn slab_exchange(s: &mut Slab<Archetype>, key: usize, a: Archetype) -> (r: Archetype)
    requires
        slab_entries(*old(s)).contains_key(key as int),
    ensures
        r == slab_entries(*old(s))[key as int],
        slab_entries(*final(s)) == slab_entries(*old(s)).insert(key as int, a),
        slab_next(*final(s)) == slab_next(*old(s)),
        slab_slots(*final(s)) == slab_slots(*old(s)),
{
    let slot = s.get_mut(key).expect("occupied key");
    core::mem::replace(slot, a)
}

/// A strictly ascending sequence of component indices.
pub open spec fn sorted_strict(s: Seq<u32>) -> bool {
    forall|i: int, j: int| 0 <= i < j < s.len() ==> s[i] < s[j]
}

/// `r` is the sorted set `base` with `c` added.
pub open spec fn is_insert_set(base: Seq<u32>, c: u32, r: Seq<u32>) -> bool {
    &&& sorted_strict(r)
    &&& forall|x: u32| r.contains(x) <==> (base.contains(x) || x == c)
}

/// `r` is the sorted set `base` with `c` taken out.
pub open spec fn is_remove_set(base: Seq<u32>, c: u32, r: Seq<u32>) -> bool {
    &&& sorted_strict(r)
    &&& forall|x: u32| r.contains(x) <==> (base.contains(x) && x != c)
}

/// The sorted component set with `c` inserted at its position.
fn insert_sorted_vec(s: &Vec<u32>, c: u32) -> (r: Vec<u32>)
    requires
        sorted_strict(s@),
        !s@.contains(c),
    ensures
        is_insert_set(s@, c, r@),
        r@.len() == s@.len() + 1,
    {
    let n = s.len();
    let mut r: Vec<u32> = Vec::new();
    let mut i: usize = 0;
    while i < n && s[i] < c
        invariant
            n == s@.len(),
            i <= n,
            sorted_strict(s@),
            r@ == s@.subrange(0, i as int),
            forall|j: int| 0 <= j < i ==> s@[j] < c,
        decreases n - i,
    {
        r.push(s[i]);
        proof {
            assert(r@ =~= s@.subrange(0, i + 1));
        }
        i += 1;
    }
    r.push(c);
    let mut j: usize = i;
    while j < n
        invariant
            n == s@.len(),
            i <= j <= n,
            sorted_strict(s@),
            !s@.contains(c),
            forall|k: int| 0 <= k < i ==> s@[k] < c,
            i < n ==> s@[i as int] > c,
            r@ == s@.subrange(0, i as int) + seq![c] + s@.subrange(i as int, j as int),
        decreases n - j,
    {
        proof {
            if s@[i as int] == c {
                assert(s@.contains(c));
            }
        }
        r.push(s[j]);
        proof {
            assert(r@ =~= s@.subrange(0, i as int) + seq![c] + s@.subrange(i as int, j + 1));
        }
        j += 1;
    }
    proof {
        let s0 = s@;
        let r1 = r@;
        assert(r1 == s0.subrange(0, i as int) + seq![c] + s0.subrange(i as int, n as int));
        assert forall|a: int, b: int| 0 <= a < b < r1.len() implies r1[a] < r1[b] by {
            if b < i {
            } else if a < i && b == i {
                assert(r1[a] == s0[a] && r1[b] == c);
            } else if a < i && b > i {
                assert(r1[a] == s0[a] && r1[b] == s0[b - 1]);
                if s0[b - 1] == c {
                    assert(s0.contains(c));
                }
                assert(s0[b - 1] >= s0[i as int]);
            } else if a == i {
                assert(r1[b] == s0[b - 1] && b - 1 >= i);
                assert(s0[b - 1] >= s0[i as int]);
                if s0[b - 1] == c {
                    assert(s0.contains(c));
                }
            } else {
            }
        }
        assert forall|x: u32| r1.contains(x) implies (s0.contains(x) || x == c) by {
            let k = choose|k: int| 0 <= k < r1.len() && r1[k] == x;
            if k < i {
                assert(s0[k] == x);
            } else if k > i {
                assert(s0[k - 1] == x);
            }
        }
        assert forall|x: u32| s0.contains(x) implies r1.contains(x) by {
            let k = choose|k: int| 0 <= k < s0.len() && s0[k] == x;
            if k < i {
                assert(r1[k] == x);
            } else {
                assert(r1[k + 1] == x);
            }
        }
        assert(r1[i as int] == c);
        assert(r1.contains(c));
    }
    r
}

/// The sorted component set with `c` removed.
fn remove_sorted_vec(s: &Vec<u32>, c: u32) -> (r: Vec<u32>)
    requires
        sorted_strict(s@),
        s@.contains(c),
    ensures
        is_remove_set(s@, c, r@),
        r@.len() == s@.len() - 1,
    {
    let n = s.len();
    let mut r: Vec<u32> = Vec::new();
    let mut i: usize = 0;
    while i < n && s[i] < c
        invariant
            n == s@.len(),
            i <= n,
            sorted_strict(s@),
            s@.contains(c),
            r@ == s@.subrange(0, i as int),
            forall|j: int| 0 <= j < i ==> s@[j] < c,
        decreases n - i,
    {
        r.push(s[i]);
        proof {
            assert(r@ =~= s@.subrange(0, i + 1));
        }
        i += 1;
    }
    proof {
        let k = choose|k: int| 0 <= k < s@.len() && s@[k] == c;
        assert(k >= i);
        assert(i < n);
        if s@[i as int] > c {
            assert(s@[k] >= s@[i as int]);
        }
        assert(s@[i as int] == c);
    }
    let mut j: usize = i + 1;
    while j < n
        invariant
            n == s@.len(),
            i < n,
            i + 1 <= j <= n,
            sorted_strict(s@),
            s@[i as int] == c,
            forall|k: int| 0 <= k < i ==> s@[k] < c,
            r@ == s@.subrange(0, i as int) + s@.subrange(i + 1, j as int),
        decreases n - j,
    {
        r.push(s[j]);
        proof {
            assert(r@ =~= s@.subrange(0, i as int) + s@.subrange(i + 1, j + 1));
        }
        j += 1;
    }
    proof {
        let s0 = s@;
        let r1 = r@;
        assert(r1 == s0.subrange(0, i as int) + s0.subrange(i + 1, n as int));
        assert forall|a: int, b: int| 0 <= a < b < r1.len() implies r1[a] < r1[b] by {
            if b < i {
            } else if a < i {
                assert(r1[a] == s0[a] && r1[b] == s0[b + 1] && a < b + 1);
            } else {
                assert(r1[a] == s0[a + 1] && r1[b] == s0[b + 1]);
            }
        }
        assert forall|x: u32| r1.contains(x) implies (s0.contains(x) && x != c) by {
            let k = choose|k: int| 0 <= k < r1.len() && r1[k] == x;
            if k < i {
                assert(s0[k] == x);
                assert(s0[k] < c);
            } else {
                assert(s0[k + 1] == x);
                assert(s0[k + 1] > s0[i as int]);
            }
        }
        assert forall|x: u32| s0.contains(x) && x != c implies r1.contains(x) by {
            let k = choose|k: int| 0 <= k < s0.len() && s0[k] == x;
            assert(k != i);
            if k < i {
                assert(r1[k] == x);
            } else {
                assert(r1[k - 1] == x);
            }
        }
    }
    r
}

/// Whether two component-index vectors hold the same sequence.
fn vec_eq_u32(a: &Vec<u32>, b: &Vec<u32>) -> (r: bool)
    ensures
        r == (a@ == b@),
{
    let n = a.len();
    if n != b.len() {
        return false;
    }
    let mut i: usize = 0;
    while i < n
        invariant
            n == a@.len(),
            n == b@.len(),
            i <= n,
            forall|j: int| 0 <= j < i ==> a@[j] == b@[j],
        decreases n - i,
    {
        if a[i] != b[i] {
            return false;
        }
        i += 1;
    }
    proof {
        assert(a@ =~= b@);
    }
    true
}

/// The world-wide map from a sorted component set to its archetype's
/// index. Keys are unique.
pub struct CompMap {
    pub pairs: Vec<(Vec<u32>, u32)>,
}

impl CompMap {
    pub open spec fn wf(self) -> bool {
        forall|i: int, j: int|
            0 <= i < j < self.pairs@.len() ==> (#[trigger] self.pairs@[i]).0@ != (
            #[trigger] self.pairs@[j]).0@
    }

    pub open spec fn spec_contains(self, k: Seq<u32>) -> bool {
        exists|i: int| 0 <= i < self.pairs@.len() && (#[trigger] self.pairs@[i]).0@ == k
    }

    pub open spec fn spec_get(self, k: Seq<u32>) -> u32 {
        self.pairs@[choose|i: int| 0 <= i < self.pairs@.len() && (#[trigger] self.pairs@[i]).0@ == k].1
    }

    pub fn new() -> (r: Self)
        ensures
            r.wf(),
            r.pairs@.len() == 0,
            forall|k: Seq<u32>| !r.spec_contains(k),
    {
        CompMap { pairs: Vec::new() }
    }

    pub fn get(&self, k: &Vec<u32>) -> (r: Option<u32>)
        requires
            self.wf(),
        ensures
            r == if self.spec_contains(k@) {
                Some(self.spec_get(k@))
            } else {
                None::<u32>
            },
    {
        let n = self.pairs.len();
        let mut i: usize = 0;
        while i < n
            invariant
                n == self.pairs@.len(),
                i <= n,
                self.wf(),
                forall|j: int| 0 <= j < i ==> (#[trigger] self.pairs@[j]).0@ != k@,
            decreases n - i,
        {
            if vec_eq_u32(&self.pairs[i].0, k) {
                proof {
                    let c = choose|j: int|
                        0 <= j < self.pairs@.len() && (#[trigger] self.pairs@[j]).0@ == k@;
                    assert(c == i);
                }
                return Some(self.pairs[i].1);
            }
            i += 1;
        }
        None
    }

    pub fn insert(&mut self, k: Vec<u32>, v: u32)
        requires
            old(self).wf(),
            !old(self).spec_contains(k@),
        ensures
            final(self).wf(),
            final(self).pairs@ == old(self).pairs@.push((k, v)),
            final(self).spec_contains(k@),
            final(self).spec_get(k@) == v,
            forall|k2: Seq<u32>|
                k2 != k@ ==> final(self).spec_contains(k2) == old(self).spec_contains(k2),
            forall|k2: Seq<u32>|
                k2 != k@ && old(self).spec_contains(k2) ==> final(self).spec_get(k2) == old(self).spec_get(k2),
    {
        let ghost n = self.pairs@.len() as int;
        let ghost kv = k@;
        self.pairs.push((k, v));
        proof {
            assert forall|i: int, j: int|
                0 <= i < j < self.pairs@.len() implies (#[trigger] self.pairs@[i]).0@ != (
            #[trigger] self.pairs@[j]).0@ by {
                if j == n {
                    assert(self.pairs@[i] == old(self).pairs@[i]);
                }
            }
            assert(self.pairs@[n].0@ == kv);
            let c = choose|i: int| 0 <= i < self.pairs@.len() && (#[trigger] self.pairs@[i]).0@ == kv;
            assert(c == n);
            assert forall|k2: Seq<u32>| k2 != kv && final(self).spec_contains(k2) implies old(self).spec_contains(k2) by {
                let i = choose|i: int|
                    0 <= i < self.pairs@.len() && (#[trigger] self.pairs@[i]).0@ == k2;
                assert(i < n);
                assert(old(self).pairs@[i].0@ == k2);
            }
            assert forall|k2: Seq<u32>| k2 != kv && old(self).spec_contains(k2) implies final(self).spec_contains(k2) && final(self).spec_get(k2) == old(self).spec_get(k2) by {
                let i = choose|i: int|
                    0 <= i < old(self).pairs@.len() && (#[trigger] old(self).pairs@[i]).0@ == k2;
                assert(self.pairs@[i].0@ == k2);
                let c1 = choose|j: int|
                    0 <= j < self.pairs@.len() && (#[trigger] self.pairs@[j]).0@ == k2;
                let c0 = choose|j: int|
                    0 <= j < old(self).pairs@.len() && (#[trigger] old(self).pairs@[j]).0@ == k2;
                assert(c1 == i && c0 == i);
            }
        }
    }
}


/// Two graphs with the same archetypes, entry for entry.
pub open spec fn same_graph(w0: Archetypes, w1: Archetypes) -> bool {
    &&& w1.spec_count() == w0.spec_count()
    &&& slab_slots(w1.archetypes) == slab_slots(w0.archetypes)
    &&& forall|i: int|
        slab_entries(w1.archetypes).contains_key(i) == slab_entries(w0.archetypes).contains_key(i)
    &&& forall|i: int|
        slab_entries(w0.archetypes).contains_key(i) ==> w1.spec_at(i) == w0.spec_at(i)
    &&& w1.by_components == w0.by_components
}

/// Every column of every archetype was laid out by this registry: its
/// component is registered and the column carries that component's size,
/// alignment and drop discipline.
pub open spec fn registry_consistent(w: Archetypes, comps: Components) -> bool {
    forall|i: int, p: int|
        0 <= i < w.spec_count() && 0 <= p < w.spec_at(i).columns@.len() ==> {
            let col = #[trigger] w.spec_at(i).columns@[p];
            col.component_idx.0 < comps.view().len() && col.elem_size == comps.spec_layout_of(
                col.component_idx.0,
            ).size && col.elem_align == comps.spec_layout_of(col.component_idx.0).align
                && col.has_drop == comps.spec_drop_of(col.component_idx.0)
        }
}

/// The `New` notifications produced by registering the first `n` systems
/// on a fresh archetype, in registration order.
pub open spec fn new_arch_notifs(systems: Seq<SystemInfo>, a: Archetype, n: int) -> Seq<
    Notification,
>
    decreases n,
{
    if n <= 0 {
        Seq::empty()
    } else {
        new_arch_notifs(systems, a, n - 1) + (if a.spec_matches(systems[n - 1]) {
            seq![
                Notification {
                    reason: RefreshArchetypeReason::New,
                    archetype: a.index,
                    system: systems[n - 1].id,
                },
            ]
        } else {
            Seq::empty()
        })
    }
}

proof fn lemma_notifs_same(systems: Seq<SystemInfo>, a0: Archetype, a1: Archetype, n: int)
    requires
        a1.columns@ == a0.columns@,
        a1.index == a0.index,
    ensures
        new_arch_notifs(systems, a1, n) == new_arch_notifs(systems, a0, n),
    decreases n,
{
    if n > 0 {
        lemma_notifs_same(systems, a0, a1, n - 1);
        crate::archetype::lemma_matches_same(a0, a1, systems[n - 1]);
    }
}

/// Two graphs with equal entries satisfy the same invariant.
proof fn lemma_graph_eq(w0: Archetypes, w1: Archetypes, comps: Components)
    requires
        w0.wf(),
        registry_consistent(w0, comps),
        same_graph(w0, w1),
    ensures
        w1.wf(),
        registry_consistent(w1, comps),
{
    let n = w0.spec_count();
    assert forall|i: int| 0 <= i < n implies (#[trigger] w1.spec_at(i)).wf() && w1.spec_at(i).index
        == ArchetypeIdx(i as u32) by {
        assert(w1.spec_at(i) == w0.spec_at(i));
    }
    assert(w1.spec_at(0) == w0.spec_at(0));
    assert forall|k: int|
        0 <= k < w1.by_components.pairs@.len() implies (#[trigger] w1.by_components.pairs@[k]).1
        < n && w1.spec_at(w1.by_components.pairs@[k].1 as int).spec_components()
        == w1.by_components.pairs@[k].0@ by {
        assert(w1.spec_at(w1.by_components.pairs@[k].1 as int) == w0.spec_at(
            w0.by_components.pairs@[k].1 as int,
        ));
    }
    assert forall|i: int|
        0 <= i < n implies w1.by_components.spec_contains(
        (#[trigger] w1.spec_at(i)).spec_components(),
    ) && w1.by_components.spec_get(w1.spec_at(i).spec_components()) == i as u32 by {
        assert(w1.spec_at(i) == w0.spec_at(i));
        assert(w0.by_components.spec_contains(w0.spec_at(i).spec_components()));
    }
    assert forall|i: int, c2: u32|
        0 <= i < n && #[trigger] w1.spec_at(i).insert_components.spec_contains(c2) implies {
        let t = w1.spec_at(i).insert_components.spec_get(c2);
        t < n && is_insert_set(
            w1.spec_at(i).spec_components(),
            c2,
            w1.spec_at(t as int).spec_components(),
        )
    } by {
        assert(w1.spec_at(i) == w0.spec_at(i));
        assert(w0.spec_at(i).insert_components.spec_contains(c2));
        let t = w0.spec_at(i).insert_components.spec_get(c2);
        assert(w1.spec_at(t as int) == w0.spec_at(t as int));
    }
    assert forall|i: int, c2: u32|
        0 <= i < n && #[trigger] w1.spec_at(i).remove_components.spec_contains(c2) implies {
        let t = w1.spec_at(i).remove_components.spec_get(c2);
        t < n && is_remove_set(
            w1.spec_at(i).spec_components(),
            c2,
            w1.spec_at(t as int).spec_components(),
        )
    } by {
        assert(w1.spec_at(i) == w0.spec_at(i));
        assert(w0.spec_at(i).remove_components.spec_contains(c2));
        let t = w0.spec_at(i).remove_components.spec_get(c2);
        assert(w1.spec_at(t as int) == w0.spec_at(t as int));
    }
    assert forall|i: int, j: int, p: int, q: int|
        0 <= i < n && 0 <= j < n && 0 <= p < w1.spec_at(i).columns@.len() && 0 <= q < w1.spec_at(
            j,
        ).columns@.len() && (#[trigger] w1.spec_at(i).columns@[p]).component_idx == (
        #[trigger] w1.spec_at(j).columns@[q]).component_idx implies w1.spec_at(
        i,
    ).columns@[p].elem_size == w1.spec_at(j).columns@[q].elem_size && w1.spec_at(
        i,
    ).columns@[p].elem_align == w1.spec_at(j).columns@[q].elem_align && w1.spec_at(
        i,
    ).columns@[p].has_drop == w1.spec_at(j).columns@[q].has_drop by {
        assert(w1.spec_at(i) == w0.spec_at(i));
        assert(w1.spec_at(j) == w0.spec_at(j));
        assert(w0.spec_at(i).columns@[p] == w1.spec_at(i).columns@[p]);
        assert(w0.spec_at(j).columns@[q] == w1.spec_at(j).columns@[q]);
    }
    assert forall|i: int, p: int|
        0 <= i < n && 0 <= p < w1.spec_at(i).columns@.len() implies {
        let col = #[trigger] w1.spec_at(i).columns@[p];
        col.component_idx.0 < comps.view().len() && col.elem_size == comps.spec_layout_of(
            col.component_idx.0,
        ).size && col.elem_align == comps.spec_layout_of(col.component_idx.0).align && col.has_drop
            == comps.spec_drop_of(col.component_idx.0)
    } by {
        assert(w1.spec_at(i) == w0.spec_at(i));
        assert(w0.spec_at(i).columns@[p] == w1.spec_at(i).columns@[p]);
    }
}

/// Caching one insert edge at `src` preserves the graph invariant.
proof fn lemma_graph_after_src_edge(
    w0: Archetypes,
    w1: Archetypes,
    src: int,
    a0: Archetype,
    a1: Archetype,
    c: u32,
    target: u32,
)
    requires
        w0.wf(),
        0 <= src < w0.spec_count(),
        a0 == w0.spec_at(src),
        !a0.insert_components.spec_contains(c),
        a1 == (Archetype { insert_components: a1.insert_components, ..a0 }),
        a1.insert_components.wf(),
        a1.insert_components.spec_contains(c),
        a1.insert_components.spec_get(c) == target,
        forall|c2: u32|
            c2 != c ==> a1.insert_components.spec_contains(c2)
                == a0.insert_components.spec_contains(c2),
        forall|c2: u32|
            c2 != c && a0.insert_components.spec_contains(c2)
                ==> a1.insert_components.spec_get(c2) == a0.insert_components.spec_get(c2),
        target < w0.spec_count(),
        is_insert_set(a0.spec_components(), c, w0.spec_at(target as int).spec_components()),
        slab_entries(w1.archetypes) == slab_entries(w0.archetypes).insert(src, a1),
        slab_next(w1.archetypes) == slab_next(w0.archetypes),
        slab_slots(w1.archetypes) == slab_slots(w0.archetypes),
        w1.by_components == w0.by_components,
    ensures
        w1.wf(),
        w1.spec_count() == w0.spec_count(),
        forall|i: int| 0 <= i < w0.spec_count() && i != src ==> w1.spec_at(i) == w0.spec_at(i),
        w1.spec_at(src) == a1,
        forall|i: int|
            0 <= i < w1.spec_count() ==> w1.spec_at(i).spec_components() == w0.spec_at(
                i,
            ).spec_components(),
{
    let n = w0.spec_count();
    assert(a1.spec_components() =~= a0.spec_components());
    assert(w1.spec_at(src) == a1);
    assert forall|i: int|
        0 <= i < n implies w1.spec_at(i).spec_components() == w0.spec_at(
        i,
    ).spec_components() by {
        if i == src {
        } else {
            assert(w1.spec_at(i) == w0.spec_at(i));
        }
    }
    assert(a1.wf());
    assert forall|i: int| 0 <= i < n implies (#[trigger] w1.spec_at(i)).wf() by {
        if i != src {
            assert(w1.spec_at(i) == w0.spec_at(i));
        }
    }
    assert forall|k: int|
        0 <= k < w1.by_components.pairs@.len() implies (#[trigger] w1.by_components.pairs@[k]).1
        < n && w1.spec_at(w1.by_components.pairs@[k].1 as int).spec_components()
        == w1.by_components.pairs@[k].0@ by {}
    assert forall|i: int|
        0 <= i < n implies w1.by_components.spec_contains(
        (#[trigger] w1.spec_at(i)).spec_components(),
    ) && w1.by_components.spec_get(w1.spec_at(i).spec_components()) == i as u32 by {
        assert(w1.spec_at(i).spec_components() == w0.spec_at(i).spec_components());
    }
    assert forall|i: int, c2: u32|
        0 <= i < n && #[trigger] w1.spec_at(i).insert_components.spec_contains(c2) implies {
        let t = w1.spec_at(i).insert_components.spec_get(c2);
        t < n && is_insert_set(
            w1.spec_at(i).spec_components(),
            c2,
            w1.spec_at(t as int).spec_components(),
        )
    } by {
        if i == src {
            if c2 == c {
            } else {
                assert(a0.insert_components.spec_contains(c2));
            }
        } else {
            assert(w1.spec_at(i) == w0.spec_at(i));
            assert(w0.spec_at(i).insert_components.spec_contains(c2));
        }
    }
    assert forall|i: int, c2: u32|
        0 <= i < n && #[trigger] w1.spec_at(i).remove_components.spec_contains(c2) implies {
        let t = w1.spec_at(i).remove_components.spec_get(c2);
        t < n && is_remove_set(
            w1.spec_at(i).spec_components(),
            c2,
            w1.spec_at(t as int).spec_components(),
        )
    } by {
        if i == src {
            assert(a0.remove_components.spec_contains(c2));
        } else {
            assert(w1.spec_at(i) == w0.spec_at(i));
            assert(w0.spec_at(i).remove_components.spec_contains(c2));
        }
    }
    assert forall|i: int, j: int, p: int, q: int|
        0 <= i < n && 0 <= j < n && 0 <= p < w1.spec_at(i).columns@.len() && 0 <= q < w1.spec_at(
            j,
        ).columns@.len() && (#[trigger] w1.spec_at(i).columns@[p]).component_idx == (
        #[trigger] w1.spec_at(j).columns@[q]).component_idx implies w1.spec_at(
        i,
    ).columns@[p].elem_size == w1.spec_at(j).columns@[q].elem_size && w1.spec_at(
        i,
    ).columns@[p].elem_align == w1.spec_at(j).columns@[q].elem_align && w1.spec_at(
        i,
    ).columns@[p].has_drop == w1.spec_at(j).columns@[q].has_drop by {
        assert(w1.spec_at(i).columns@ == w0.spec_at(i).columns@);
        assert(w1.spec_at(j).columns@ == w0.spec_at(j).columns@);
        assert(w0.spec_at(i).columns@[p] == w1.spec_at(i).columns@[p]);
        assert(w0.spec_at(j).columns@[q] == w1.spec_at(j).columns@[q]);
    }
}

/// Installing a fresh archetype, its two seeded edges and its
/// `by_components` entry preserves the graph invariant.
proof fn lemma_graph_after_new_arch(
    w0: Archetypes,
    mid: Archetypes,
    w1: Archetypes,
    src: int,
    a0: Archetype,
    a1: Archetype,
    c: u32,
    na: Archetype,
    key: Vec<u32>,
    comps: Components,
)
    requires
        w0.wf(),
        registry_consistent(w0, comps),
        0 <= src < w0.spec_count(),
        w0.spec_count() < u32::MAX,
        a0 == w0.spec_at(src),
        !a0.insert_components.spec_contains(c),
        !a0.spec_components().contains(c),
        a1 == (Archetype { insert_components: a1.insert_components, ..a0 }),
        a1.insert_components.wf(),
        a1.insert_components.spec_contains(c),
        a1.insert_components.spec_get(c) == w0.spec_count() as u32,
        forall|c2: u32|
            c2 != c ==> a1.insert_components.spec_contains(c2)
                == a0.insert_components.spec_contains(c2),
        forall|c2: u32|
            c2 != c && a0.insert_components.spec_contains(c2)
                ==> a1.insert_components.spec_get(c2) == a0.insert_components.spec_get(c2),
        is_insert_set(a0.spec_components(), c, key@),
        !w0.by_components.spec_contains(key@),
        na.wf(),
        na.index == ArchetypeIdx(w0.spec_count() as u32),
        na.spec_components() == key@,
        na.entity_ids@.len() == 0,
        forall|c2: u32| !na.insert_components.spec_contains(c2),
        forall|c2: u32| na.remove_components.spec_contains(c2) <==> c2 == c,
        na.remove_components.spec_get(c) == src as u32,
        forall|p: int|
            0 <= p < na.columns@.len() ==> ((#[trigger] na.columns@[p]).component_idx.0
                < comps.view().len() && na.columns@[p].elem_size == comps.spec_layout_of(
                na.columns@[p].component_idx.0,
            ).size && na.columns@[p].elem_align == comps.spec_layout_of(
                na.columns@[p].component_idx.0,
            ).align && na.columns@[p].has_drop == comps.spec_drop_of(
                na.columns@[p].component_idx.0,
            )),
        slab_entries(mid.archetypes) == slab_entries(w0.archetypes).insert(src, a1),
        mid.by_components.wf(),
        mid.by_components.pairs@ == w0.by_components.pairs@.push((key, w0.spec_count() as u32)),
        slab_entries(w1.archetypes) == slab_entries(mid.archetypes).insert(w0.spec_count(), na),
        slab_next(w1.archetypes) == w0.spec_count() + 1,
        slab_slots(w1.archetypes) == w0.spec_count() + 1,
        w1.by_components == mid.by_components,
    ensures
        w1.wf(),
        registry_consistent(w1, comps),
        w1.spec_count() == w0.spec_count() + 1,
        forall|i: int| 0 <= i < w0.spec_count() && i != src ==> w1.spec_at(i) == w0.spec_at(i),
        w1.spec_at(src) == a1,
        w1.spec_at(w0.spec_count()) == na,
{
    let n = w0.spec_count();
    assert(a1.spec_components() =~= a0.spec_components());
    assert(w1.spec_at(src) == a1);
    assert(w1.spec_at(n) == na);
    assert forall|i: int|
        slab_entries(w1.archetypes).contains_key(i) <==> 0 <= i < n + 1 by {}
    assert forall|i: int|
        0 <= i < n + 1 implies w1.spec_at(i).spec_components() == (if i < n {
        w0.spec_at(i).spec_components()
    } else {
        key@
    }) by {
        if i == src {
        } else if i < n {
            assert(w1.spec_at(i) == w0.spec_at(i));
        }
    }
    assert(a1.wf());
    assert forall|i: int| 0 <= i < n + 1 implies (#[trigger] w1.spec_at(i)).wf() by {
        if i < n && i != src {
            assert(w1.spec_at(i) == w0.spec_at(i));
        }
    }
    assert forall|i: int|
        0 <= i < n + 1 implies (#[trigger] w1.spec_at(i)).index == ArchetypeIdx(i as u32) by {
        if i < n && i != src {
            assert(w1.spec_at(i) == w0.spec_at(i));
        }
    }
    // keys distinct from the new key: sets differ in membership of c
    assert forall|k2: int|
        0 <= k2 < w0.by_components.pairs@.len() implies (
    #[trigger] w0.by_components.pairs@[k2]).0@ != key@ by {
        if w0.by_components.pairs@[k2].0@ == key@ {
            assert(w0.by_components.spec_contains(key@));
        }
    }
    assert forall|k2: int|
        0 <= k2 < w1.by_components.pairs@.len() implies (#[trigger] w1.by_components.pairs@[k2]).1
        < n + 1 && w1.spec_at(w1.by_components.pairs@[k2].1 as int).spec_components()
        == w1.by_components.pairs@[k2].0@ by {
        if k2 < w0.by_components.pairs@.len() {
            assert(w1.by_components.pairs@[k2] == w0.by_components.pairs@[k2]);
            let t = w0.by_components.pairs@[k2].1 as int;
            assert(w1.spec_at(t).spec_components() == w0.spec_at(t).spec_components());
        } else {
            assert(w1.by_components.pairs@[k2] == (key, n as u32));
        }
    }
    assert forall|i: int|
        0 <= i < n + 1 implies w1.by_components.spec_contains(
        (#[trigger] w1.spec_at(i)).spec_components(),
    ) && w1.by_components.spec_get(w1.spec_at(i).spec_components()) == i as u32 by {
        if i < n {
            assert(w0.by_components.spec_contains(w0.spec_at(i).spec_components()));
            let k2 = choose|k2: int|
                0 <= k2 < w0.by_components.pairs@.len() && (
                #[trigger] w0.by_components.pairs@[k2]).0@ == w0.spec_at(i).spec_components();
            assert(w1.by_components.pairs@[k2].0@ == w0.spec_at(i).spec_components());
            assert(w1.by_components.spec_contains(w1.spec_at(i).spec_components()));
            let b = choose|k3: int|
                0 <= k3 < w1.by_components.pairs@.len() && (
                #[trigger] w1.by_components.pairs@[k3]).0@ == w1.spec_at(i).spec_components();
            assert(w1.spec_at(w1.by_components.pairs@[b].1 as int).spec_components()
                == w1.spec_at(i).spec_components());
            assert(w1.by_components.pairs@[b].1 == w0.by_components.spec_get(
                w0.spec_at(i).spec_components(),
            )) by {
                if b < w0.by_components.pairs@.len() {
                    let b0 = choose|k4: int|
                        0 <= k4 < w0.by_components.pairs@.len() && (
                        #[trigger] w0.by_components.pairs@[k4]).0@ == w0.spec_at(
                            i,
                        ).spec_components();
                    assert(w0.by_components.pairs@[b].0@ == w0.by_components.pairs@[b0].0@);
                    assert(b == b0);
                } else {
                    assert(w1.by_components.pairs@[b].0@ == key@);
                    assert(w0.spec_at(i).spec_components() == key@);
                    assert(w0.by_components.spec_contains(key@));
                }
            }
        } else {
            let last = w1.by_components.pairs@.len() - 1;
            assert(w1.by_components.pairs@[last].0@ == key@);
            assert(w1.by_components.spec_contains(key@));
            let b = choose|k3: int|
                0 <= k3 < w1.by_components.pairs@.len() && (
                #[trigger] w1.by_components.pairs@[k3]).0@ == key@;
            assert(b == last);
        }
    }
    assert(w1.spec_at(0).columns@.len() == 0) by {
        if src == 0 {
        } else {
            assert(w1.spec_at(0) == w0.spec_at(0));
        }
    }
    assert forall|i: int, c2: u32|
        0 <= i < n + 1 && #[trigger] w1.spec_at(i).insert_components.spec_contains(c2) implies {
        let t = w1.spec_at(i).insert_components.spec_get(c2);
        t < n + 1 && is_insert_set(
            w1.spec_at(i).spec_components(),
            c2,
            w1.spec_at(t as int).spec_components(),
        )
    } by {
        if i == src {
            if c2 == c {
                assert(w1.spec_at(n).spec_components() == key@);
            } else {
                assert(a0.insert_components.spec_contains(c2));
                let t = a0.insert_components.spec_get(c2);
                assert(t < n);
                assert(w1.spec_at(t as int).spec_components() == w0.spec_at(
                    t as int,
                ).spec_components());
            }
        } else if i < n {
            assert(w1.spec_at(i) == w0.spec_at(i));
            assert(w0.spec_at(i).insert_components.spec_contains(c2));
            let t = w0.spec_at(i).insert_components.spec_get(c2);
            assert(w1.spec_at(t as int).spec_components() == w0.spec_at(
                t as int,
            ).spec_components());
        }
    }
    assert forall|i: int, c2: u32|
        0 <= i < n + 1 && #[trigger] w1.spec_at(i).remove_components.spec_contains(c2) implies {
        let t = w1.spec_at(i).remove_components.spec_get(c2);
        t < n + 1 && is_remove_set(
            w1.spec_at(i).spec_components(),
            c2,
            w1.spec_at(t as int).spec_components(),
        )
    } by {
        if i == n {
            assert(c2 == c);
            assert(w1.spec_at(src).spec_components() == a0.spec_components());
            assert(is_remove_set(key@, c, a0.spec_components()));
        } else if i == src {
            assert(a0.remove_components.spec_contains(c2));
            let t = a0.remove_components.spec_get(c2);
            assert(w1.spec_at(t as int).spec_components() == w0.spec_at(
                t as int,
            ).spec_components());
        } else {
            assert(w1.spec_at(i) == w0.spec_at(i));
            assert(w0.spec_at(i).remove_components.spec_contains(c2));
            let t = w0.spec_at(i).remove_components.spec_get(c2);
            assert(w1.spec_at(t as int).spec_components() == w0.spec_at(
                t as int,
            ).spec_components());
        }
    }
    assert forall|i: int, p: int|
        0 <= i < n + 1 && 0 <= p < w1.spec_at(i).columns@.len() implies {
        let col = #[trigger] w1.spec_at(i).columns@[p];
        col.component_idx.0 < comps.view().len() && col.elem_size == comps.spec_layout_of(
            col.component_idx.0,
        ).size && col.elem_align == comps.spec_layout_of(col.component_idx.0).align && col.has_drop
            == comps.spec_drop_of(col.component_idx.0)
    } by {
        if i == n {
        } else if i == src {
            assert(w0.spec_at(src).columns@[p] == w1.spec_at(i).columns@[p]);
        } else {
            assert(w1.spec_at(i) == w0.spec_at(i));
            assert(w0.spec_at(i).columns@[p] == w1.spec_at(i).columns@[p]);
        }
    }
    assert forall|i: int, j: int, p: int, q: int|
        0 <= i < n + 1 && 0 <= j < n + 1 && 0 <= p < w1.spec_at(i).columns@.len() && 0 <= q
            < w1.spec_at(j).columns@.len() && (#[trigger] w1.spec_at(i).columns@[p]).component_idx
            == (#[trigger] w1.spec_at(j).columns@[q]).component_idx implies w1.spec_at(
        i,
    ).columns@[p].elem_size == w1.spec_at(j).columns@[q].elem_size && w1.spec_at(
        i,
    ).columns@[p].elem_align == w1.spec_at(j).columns@[q].elem_align && w1.spec_at(
        i,
    ).columns@[p].has_drop == w1.spec_at(j).columns@[q].has_drop by {}
}


/// Caching one remove edge at `src` preserves the graph invariant.
proof fn lemma_graph_after_src_remove_edge(
    w0: Archetypes,
    w1: Archetypes,
    src: int,
    a0: Archetype,
    a1: Archetype,
    c: u32,
    target: u32,
)
    requires
        w0.wf(),
        0 <= src < w0.spec_count(),
        a0 == w0.spec_at(src),
        !a0.remove_components.spec_contains(c),
        a1 == (Archetype { remove_components: a1.remove_components, ..a0 }),
        a1.remove_components.wf(),
        a1.remove_components.spec_contains(c),
        a1.remove_components.spec_get(c) == target,
        forall|c2: u32|
            c2 != c ==> a1.remove_components.spec_contains(c2)
                == a0.remove_components.spec_contains(c2),
        forall|c2: u32|
            c2 != c && a0.remove_components.spec_contains(c2)
                ==> a1.remove_components.spec_get(c2) == a0.remove_components.spec_get(c2),
        target < w0.spec_count(),
        is_remove_set(a0.spec_components(), c, w0.spec_at(target as int).spec_components()),
        slab_entries(w1.archetypes) == slab_entries(w0.archetypes).insert(src, a1),
        slab_next(w1.archetypes) == slab_next(w0.archetypes),
        slab_slots(w1.archetypes) == slab_slots(w0.archetypes),
        w1.by_components == w0.by_components,
    ensures
        w1.wf(),
        w1.spec_count() == w0.spec_count(),
        forall|i: int| 0 <= i < w0.spec_count() && i != src ==> w1.spec_at(i) == w0.spec_at(i),
        w1.spec_at(src) == a1,
        forall|i: int|
            0 <= i < w1.spec_count() ==> w1.spec_at(i).spec_components() == w0.spec_at(
                i,
            ).spec_components(),
{
    let n = w0.spec_count();
    assert(a1.spec_components() =~= a0.spec_components());
    assert(w1.spec_at(src) == a1);
    assert forall|i: int|
        0 <= i < n implies w1.spec_at(i).spec_components() == w0.spec_at(
        i,
    ).spec_components() by {
        if i == src {
        } else {
            assert(w1.spec_at(i) == w0.spec_at(i));
        }
    }
    assert(a1.wf());
    assert forall|i: int| 0 <= i < n implies (#[trigger] w1.spec_at(i)).wf() by {
        if i != src {
            assert(w1.spec_at(i) == w0.spec_at(i));
        }
    }
    assert forall|k: int|
        0 <= k < w1.by_components.pairs@.len() implies (#[trigger] w1.by_components.pairs@[k]).1
        < n && w1.spec_at(w1.by_components.pairs@[k].1 as int).spec_components()
        == w1.by_components.pairs@[k].0@ by {}
    assert forall|i: int|
        0 <= i < n implies w1.by_components.spec_contains(
        (#[trigger] w1.spec_at(i)).spec_components(),
    ) && w1.by_components.spec_get(w1.spec_at(i).spec_components()) == i as u32 by {
        assert(w1.spec_at(i).spec_components() == w0.spec_at(i).spec_components());
    }
    assert forall|i: int, c2: u32|
        0 <= i < n && #[trigger] w1.spec_at(i).insert_components.spec_contains(c2) implies {
        let t = w1.spec_at(i).insert_components.spec_get(c2);
        t < n && is_insert_set(
            w1.spec_at(i).spec_components(),
            c2,
            w1.spec_at(t as int).spec_components(),
        )
    } by {
        if i == src {
            assert(a0.insert_components.spec_contains(c2));
        } else {
            assert(w1.spec_at(i) == w0.spec_at(i));
            assert(w0.spec_at(i).insert_components.spec_contains(c2));
        }
    }
    assert forall|i: int, c2: u32|
        0 <= i < n && #[trigger] w1.spec_at(i).remove_components.spec_contains(c2) implies {
        let t = w1.spec_at(i).remove_components.spec_get(c2);
        t < n && is_remove_set(
            w1.spec_at(i).spec_components(),
            c2,
            w1.spec_at(t as int).spec_components(),
        )
    } by {
        if i == src {
            if c2 == c {
            } else {
                assert(a0.remove_components.spec_contains(c2));
            }
        } else {
            assert(w1.spec_at(i) == w0.spec_at(i));
            assert(w0.spec_at(i).remove_components.spec_contains(c2));
        }
    }
    assert forall|i: int, j: int, p: int, q: int|
        0 <= i < n && 0 <= j < n && 0 <= p < w1.spec_at(i).columns@.len() && 0 <= q < w1.spec_at(
            j,
        ).columns@.len() && (#[trigger] w1.spec_at(i).columns@[p]).component_idx == (
        #[trigger] w1.spec_at(j).columns@[q]).component_idx implies w1.spec_at(
        i,
    ).columns@[p].elem_size == w1.spec_at(j).columns@[q].elem_size && w1.spec_at(
        i,
    ).columns@[p].elem_align == w1.spec_at(j).columns@[q].elem_align && w1.spec_at(
        i,
    ).columns@[p].has_drop == w1.spec_at(j).columns@[q].has_drop by {
        assert(w1.spec_at(i).columns@ == w0.spec_at(i).columns@);
        assert(w1.spec_at(j).columns@ == w0.spec_at(j).columns@);
        assert(w0.spec_at(i).columns@[p] == w1.spec_at(i).columns@[p]);
        assert(w0.spec_at(j).columns@[q] == w1.spec_at(j).columns@[q]);
    }
}

/// Installing a fresh archetype reached by a remove edge preserves the
/// graph invariant.
proof fn lemma_graph_after_new_arch_remove(
    w0: Archetypes,
    mid: Archetypes,
    w1: Archetypes,
    src: int,
    a0: Archetype,
    a1: Archetype,
    c: u32,
    na: Archetype,
    key: Vec<u32>,
    comps: Components,
)
    requires
        w0.wf(),
        registry_consistent(w0, comps),
        0 <= src < w0.spec_count(),
        w0.spec_count() < u32::MAX,
        a0 == w0.spec_at(src),
        !a0.remove_components.spec_contains(c),
        a0.spec_components().contains(c),
        a1 == (Archetype { remove_components: a1.remove_components, ..a0 }),
        a1.remove_components.wf(),
        a1.remove_components.spec_contains(c),
        a1.remove_components.spec_get(c) == w0.spec_count() as u32,
        forall|c2: u32|
            c2 != c ==> a1.remove_components.spec_contains(c2)
                == a0.remove_components.spec_contains(c2),
        forall|c2: u32|
            c2 != c && a0.remove_components.spec_contains(c2)
                ==> a1.remove_components.spec_get(c2) == a0.remove_components.spec_get(c2),
        is_remove_set(a0.spec_components(), c, key@),
        !w0.by_components.spec_contains(key@),
        na.wf(),
        na.index == ArchetypeIdx(w0.spec_count() as u32),
        na.spec_components() == key@,
        na.entity_ids@.len() == 0,
        forall|c2: u32| !na.remove_components.spec_contains(c2),
        forall|c2: u32| na.insert_components.spec_contains(c2) <==> c2 == c,
        na.insert_components.spec_get(c) == src as u32,
        forall|p: int|
            0 <= p < na.columns@.len() ==> ((#[trigger] na.columns@[p]).component_idx.0
                < comps.view().len() && na.columns@[p].elem_size == comps.spec_layout_of(
                na.columns@[p].component_idx.0,
            ).size && na.columns@[p].elem_align == comps.spec_layout_of(
                na.columns@[p].component_idx.0,
            ).align && na.columns@[p].has_drop == comps.spec_drop_of(
                na.columns@[p].component_idx.0,
            )),
        slab_entries(mid.archetypes) == slab_entries(w0.archetypes).insert(src, a1),
        mid.by_components.wf(),
        mid.by_components.pairs@ == w0.by_components.pairs@.push((key, w0.spec_count() as u32)),
        slab_entries(w1.archetypes) == slab_entries(mid.archetypes).insert(w0.spec_count(), na),
        slab_next(w1.archetypes) == w0.spec_count() + 1,
        slab_slots(w1.archetypes) == w0.spec_count() + 1,
        w1.by_components == mid.by_components,
    ensures
        w1.wf(),
        registry_consistent(w1, comps),
        w1.spec_count() == w0.spec_count() + 1,
        forall|i: int| 0 <= i < w0.spec_count() && i != src ==> w1.spec_at(i) == w0.spec_at(i),
        w1.spec_at(src) == a1,
        w1.spec_at(w0.spec_count()) == na,
{
    let n = w0.spec_count();
    assert(a1.spec_components() =~= a0.spec_components());
    assert(w1.spec_at(src) == a1);
    assert(w1.spec_at(n) == na);
    assert forall|i: int|
        slab_entries(w1.archetypes).contains_key(i) <==> 0 <= i < n + 1 by {}
    assert forall|i: int|
        0 <= i < n + 1 implies w1.spec_at(i).spec_components() == (if i < n {
        w0.spec_at(i).spec_components()
    } else {
        key@
    }) by {
        if i == src {
        } else if i < n {
            assert(w1.spec_at(i) == w0.spec_at(i));
        }
    }
    assert(a1.wf());
    assert forall|i: int| 0 <= i < n + 1 implies (#[trigger] w1.spec_at(i)).wf() by {
        if i < n && i != src {
            assert(w1.spec_at(i) == w0.spec_at(i));
        }
    }
    assert forall|i: int|
        0 <= i < n + 1 implies (#[trigger] w1.spec_at(i)).index == ArchetypeIdx(i as u32) by {
        if i < n && i != src {
            assert(w1.spec_at(i) == w0.spec_at(i));
        }
    }
    assert forall|k2: int|
        0 <= k2 < w0.by_components.pairs@.len() implies (
    #[trigger] w0.by_components.pairs@[k2]).0@ != key@ by {
        if w0.by_components.pairs@[k2].0@ == key@ {
            assert(w0.by_components.spec_contains(key@));
        }
    }
    assert forall|k2: int|
        0 <= k2 < w1.by_components.pairs@.len() implies (#[trigger] w1.by_components.pairs@[k2]).1
        < n + 1 && w1.spec_at(w1.by_components.pairs@[k2].1 as int).spec_components()
        == w1.by_components.pairs@[k2].0@ by {
        if k2 < w0.by_components.pairs@.len() {
            assert(w1.by_components.pairs@[k2] == w0.by_components.pairs@[k2]);
            let t = w0.by_components.pairs@[k2].1 as int;
            assert(w1.spec_at(t).spec_components() == w0.spec_at(t).spec_components());
        } else {
            assert(w1.by_components.pairs@[k2] == (key, n as u32));
        }
    }
    assert forall|i: int|
        0 <= i < n + 1 implies w1.by_components.spec_contains(
        (#[trigger] w1.spec_at(i)).spec_components(),
    ) && w1.by_components.spec_get(w1.spec_at(i).spec_components()) == i as u32 by {
        if i < n {
            assert(w0.by_components.spec_contains(w0.spec_at(i).spec_components()));
            let k2 = choose|k2: int|
                0 <= k2 < w0.by_components.pairs@.len() && (
                #[trigger] w0.by_components.pairs@[k2]).0@ == w0.spec_at(i).spec_components();
            assert(w1.by_components.pairs@[k2].0@ == w0.spec_at(i).spec_components());
            assert(w1.by_components.spec_contains(w1.spec_at(i).spec_components()));
            let b = choose|k3: int|
                0 <= k3 < w1.by_components.pairs@.len() && (
                #[trigger] w1.by_components.pairs@[k3]).0@ == w1.spec_at(i).spec_components();
            assert(w1.spec_at(w1.by_components.pairs@[b].1 as int).spec_components()
                == w1.spec_at(i).spec_components());
            assert(w1.by_components.pairs@[b].1 == w0.by_components.spec_get(
                w0.spec_at(i).spec_components(),
            )) by {
                if b < w0.by_components.pairs@.len() {
                    let b0 = choose|k4: int|
                        0 <= k4 < w0.by_components.pairs@.len() && (
                        #[trigger] w0.by_components.pairs@[k4]).0@ == w0.spec_at(
                            i,
                        ).spec_components();
                    assert(w0.by_components.pairs@[b].0@ == w0.by_components.pairs@[b0].0@);
                    assert(b == b0);
                } else {
                    assert(w1.by_components.pairs@[b].0@ == key@);
                    assert(w0.spec_at(i).spec_components() == key@);
                    assert(w0.by_components.spec_contains(key@));
                }
            }
        } else {
            let last = w1.by_components.pairs@.len() - 1;
            assert(w1.by_components.pairs@[last].0@ == key@);
            assert(w1.by_components.spec_contains(key@));
            let b = choose|k3: int|
                0 <= k3 < w1.by_components.pairs@.len() && (
                #[trigger] w1.by_components.pairs@[k3]).0@ == key@;
            assert(b == last);
        }
    }
    assert(w1.spec_at(0).columns@.len() == 0) by {
        if src == 0 {
        } else {
            assert(w1.spec_at(0) == w0.spec_at(0));
        }
    }
    assert forall|i: int, c2: u32|
        0 <= i < n + 1 && #[trigger] w1.spec_at(i).insert_components.spec_contains(c2) implies {
        let t = w1.spec_at(i).insert_components.spec_get(c2);
        t < n + 1 && is_insert_set(
            w1.spec_at(i).spec_components(),
            c2,
            w1.spec_at(t as int).spec_components(),
        )
    } by {
        if i == n {
            assert(c2 == c);
            assert(w1.spec_at(src).spec_components() == a0.spec_components());
            assert(is_insert_set(key@, c, a0.spec_components()));
        } else if i == src {
            assert(a0.insert_components.spec_contains(c2));
            let t = a0.insert_components.spec_get(c2);
            assert(w1.spec_at(t as int).spec_components() == w0.spec_at(
                t as int,
            ).spec_components());
        } else {
            assert(w1.spec_at(i) == w0.spec_at(i));
            assert(w0.spec_at(i).insert_components.spec_contains(c2));
            let t = w0.spec_at(i).insert_components.spec_get(c2);
            assert(w1.spec_at(t as int).spec_components() == w0.spec_at(
                t as int,
            ).spec_components());
        }
    }
    assert forall|i: int, c2: u32|
        0 <= i < n + 1 && #[trigger] w1.spec_at(i).remove_components.spec_contains(c2) implies {
        let t = w1.spec_at(i).remove_components.spec_get(c2);
        t < n + 1 && is_remove_set(
            w1.spec_at(i).spec_components(),
            c2,
            w1.spec_at(t as int).spec_components(),
        )
    } by {
        if i == n {
        } else if i == src {
            if c2 == c {
                assert(w1.spec_at(n).spec_components() == key@);
            } else {
                assert(a0.remove_components.spec_contains(c2));
                let t = a0.remove_components.spec_get(c2);
                assert(w1.spec_at(t as int).spec_components() == w0.spec_at(
                    t as int,
                ).spec_components());
            }
        } else {
            assert(w1.spec_at(i) == w0.spec_at(i));
            assert(w0.spec_at(i).remove_components.spec_contains(c2));
            let t = w0.spec_at(i).remove_components.spec_get(c2);
            assert(w1.spec_at(t as int).spec_components() == w0.spec_at(
                t as int,
            ).spec_components());
        }
    }
    assert forall|i: int, p: int|
        0 <= i < n + 1 && 0 <= p < w1.spec_at(i).columns@.len() implies {
        let col = #[trigger] w1.spec_at(i).columns@[p];
        col.component_idx.0 < comps.view().len() && col.elem_size == comps.spec_layout_of(
            col.component_idx.0,
        ).size && col.elem_align == comps.spec_layout_of(col.component_idx.0).align && col.has_drop
            == comps.spec_drop_of(col.component_idx.0)
    } by {
        if i == n {
        } else if i == src {
            assert(w0.spec_at(src).columns@[p] == w1.spec_at(i).columns@[p]);
        } else {
            assert(w1.spec_at(i) == w0.spec_at(i));
            assert(w0.spec_at(i).columns@[p] == w1.spec_at(i).columns@[p]);
        }
    }
    assert forall|i: int, j: int, p: int, q: int|
        0 <= i < n + 1 && 0 <= j < n + 1 && 0 <= p < w1.spec_at(i).columns@.len() && 0 <= q
            < w1.spec_at(j).columns@.len() && (#[trigger] w1.spec_at(i).columns@[p]).component_idx
            == (#[trigger] w1.spec_at(j).columns@[q]).component_idx implies w1.spec_at(
        i,
    ).columns@[p].elem_size == w1.spec_at(j).columns@[q].elem_size && w1.spec_at(
        i,
    ).columns@[p].elem_align == w1.spec_at(j).columns@[q].elem_align && w1.spec_at(
        i,
    ).columns@[p].has_drop == w1.spec_at(j).columns@[q].has_drop by {}
}


/// The entity index and the graph agree: the id stored at every row maps
/// back to that row, and every live id's recorded location holds that id.
pub open spec fn locations_consistent(w: Archetypes, e: Entities) -> bool {
    &&& e.view().len() <= u32::MAX
    &&& forall|a: int, r: int|
        0 <= a < w.spec_count() && 0 <= r < w.spec_at(a).entity_ids@.len() ==> {
            let id = #[trigger] w.spec_at(a).entity_ids@[r];
            id < e.view().len() && e.view()[id as int] == Some(
                EntityLocation { archetype: ArchetypeIdx(a as u32), row: ArchetypeRow(r as u32) },
            )
        }
    &&& forall|id: int|
        0 <= id < e.view().len() && (#[trigger] e.view()[id]) is Some ==> {
            let l = e.view()[id]->0;
            l.archetype.0 < w.spec_count() && l.row.0 < w.spec_at(
                l.archetype.0 as int,
            ).entity_ids@.len() && w.spec_at(l.archetype.0 as int).entity_ids@[l.row.0 as int]
                == id as u32
        }
}

/// The notifications owed for one move out of `src` into `dst`, judged
/// against the state before the move: the source's listeners hear `Empty`
/// if the move empties it, then the destination's hear `RefreshPointers`
/// if its storage may reallocate, then `Nonempty` if it was empty.
pub open spec fn move_notifs(w: Archetypes, src: EntityLocation, dst: ArchetypeIdx) -> Seq<
    Notification,
> {
    let sa = w.spec_at(src.archetype.0 as int);
    let da = w.spec_at(dst.0 as int);
    (if sa.entity_ids@.len() == 1 {
        notif_seq(sa.refresh_listeners.view(), RefreshArchetypeReason::Empty, src.archetype)
    } else {
        Seq::empty()
    }) + (if da.spec_will_reallocate() {
        notif_seq(da.refresh_listeners.view(), RefreshArchetypeReason::RefreshPointers, dst)
    } else {
        Seq::empty()
    }) + (if da.entity_ids@.len() == 0 {
        notif_seq(da.refresh_listeners.view(), RefreshArchetypeReason::Nonempty, dst)
    } else {
        Seq::empty()
    })
}

/// Appends one refresh notification per listener, in listener order.
fn push_notifs(
    out: &mut Vec<Notification>,
    ids: &Vec<u32>,
    reason: RefreshArchetypeReason,
    archetype: ArchetypeIdx,
)
    ensures
        final(out)@ == old(out)@ + notif_seq(ids@, reason, archetype),
{
    let n = ids.len();
    let mut i: usize = 0;
    while i < n
        invariant
            n == ids@.len(),
            i <= n,
            out@.len() == old(out)@.len() + i,
            forall|j: int| 0 <= j < old(out)@.len() ==> out@[j] == old(out)@[j],
            forall|j: int|
                0 <= j < i ==> out@[old(out)@.len() + j] == (Notification {
                    reason,
                    archetype,
                    system: ids@[j],
                }),
        decreases n - i,
    {
        out.push(Notification { reason, archetype, system: ids[i] });
        i += 1;
    }
    proof {
        assert(out@ =~= old(out)@ + notif_seq(ids@, reason, archetype));
    }
}

/// Writing back the two archetypes touched by a move preserves the graph
/// invariant: rows changed, but no component set, edge, layout or index.
proof fn lemma_graph_after_move(
    w0: Archetypes,
    w1: Archetypes,
    s: int,
    d: int,
    sa1: Archetype,
    da1: Archetype,
)
    requires
        w0.wf(),
        0 <= s < w0.spec_count(),
        0 <= d < w0.spec_count(),
        s != d,
        sa1.wf(),
        da1.wf(),
        sa1.columns@.len() == w0.spec_at(s).columns@.len(),
        da1.columns@.len() == w0.spec_at(d).columns@.len(),
        forall|j: int|
            0 <= j < sa1.columns@.len() ==> (#[trigger] sa1.columns@[j]).component_idx == w0.spec_at(
                s,
            ).columns@[j].component_idx && sa1.columns@[j].elem_size == w0.spec_at(
                s,
            ).columns@[j].elem_size && sa1.columns@[j].elem_align == w0.spec_at(
                s,
            ).columns@[j].elem_align && sa1.columns@[j].has_drop == w0.spec_at(
                s,
            ).columns@[j].has_drop,
        forall|k: int|
            0 <= k < da1.columns@.len() ==> (#[trigger] da1.columns@[k]).component_idx == w0.spec_at(
                d,
            ).columns@[k].component_idx && da1.columns@[k].elem_size == w0.spec_at(
                d,
            ).columns@[k].elem_size && da1.columns@[k].elem_align == w0.spec_at(
                d,
            ).columns@[k].elem_align && da1.columns@[k].has_drop == w0.spec_at(
                d,
            ).columns@[k].has_drop,
        sa1.index == w0.spec_at(s).index,
        da1.index == w0.spec_at(d).index,
        sa1.insert_components == w0.spec_at(s).insert_components,
        sa1.remove_components == w0.spec_at(s).remove_components,
        da1.insert_components == w0.spec_at(d).insert_components,
        da1.remove_components == w0.spec_at(d).remove_components,
        slab_entries(w1.archetypes) == slab_entries(w0.archetypes).insert(s, sa1).insert(d, da1),
        slab_next(w1.archetypes) == slab_next(w0.archetypes),
        slab_slots(w1.archetypes) == slab_slots(w0.archetypes),
        w1.by_components == w0.by_components,
    ensures
        w1.wf(),
        w1.spec_count() == w0.spec_count(),
        forall|i: int| 0 <= i < w0.spec_count() && i != s && i != d ==> w1.spec_at(i) == w0.spec_at(i),
        w1.spec_at(s) == sa1,
        w1.spec_at(d) == da1,
        forall|i: int|
            0 <= i < w1.spec_count() ==> w1.spec_at(i).spec_components() == w0.spec_at(
                i,
            ).spec_components(),
{
    let n = w0.spec_count();
    assert(w1.spec_at(s) == sa1);
    assert(w1.spec_at(d) == da1);
    assert(sa1.spec_components() =~= w0.spec_at(s).spec_components());
    assert(da1.spec_components() =~= w0.spec_at(d).spec_components());
    assert forall|i: int|
        0 <= i < n implies w1.spec_at(i).spec_components() == w0.spec_at(
        i,
    ).spec_components() by {
        if i != s && i != d {
            assert(w1.spec_at(i) == w0.spec_at(i));
        }
    }
    assert forall|i: int|
        0 <= i < n implies (#[trigger] w1.spec_at(i)).wf() && w1.spec_at(i).index == ArchetypeIdx(
        i as u32,
    ) by {
        if i != s && i != d {
            assert(w1.spec_at(i) == w0.spec_at(i));
        }
    }
    assert(w1.spec_at(0).columns@.len() == 0) by {
        if s == 0 || d == 0 {
        } else {
            assert(w1.spec_at(0) == w0.spec_at(0));
        }
    }
    assert forall|k: int|
        0 <= k < w1.by_components.pairs@.len() implies (#[trigger] w1.by_components.pairs@[k]).1
        < n && w1.spec_at(w1.by_components.pairs@[k].1 as int).spec_components()
        == w1.by_components.pairs@[k].0@ by {
        let t = w0.by_components.pairs@[k].1 as int;
        assert(w1.spec_at(t).spec_components() == w0.spec_at(t).spec_components());
    }
    assert forall|i: int|
        0 <= i < n implies w1.by_components.spec_contains(
        (#[trigger] w1.spec_at(i)).spec_components(),
    ) && w1.by_components.spec_get(w1.spec_at(i).spec_components()) == i as u32 by {
        assert(w1.spec_at(i).spec_components() == w0.spec_at(i).spec_components());
        assert(w0.by_components.spec_contains(w0.spec_at(i).spec_components()));
    }
    assert forall|i: int, c2: u32|
        0 <= i < n && #[trigger] w1.spec_at(i).insert_components.spec_contains(c2) implies {
        let t = w1.spec_at(i).insert_components.spec_get(c2);
        t < n && is_insert_set(
            w1.spec_at(i).spec_components(),
            c2,
            w1.spec_at(t as int).spec_components(),
        )
    } by {
        assert(w1.spec_at(i).insert_components == w0.spec_at(i).insert_components) by {
            if i != s && i != d {
                assert(w1.spec_at(i) == w0.spec_at(i));
            }
        }
        assert(w0.spec_at(i).insert_components.spec_contains(c2));
        let t = w0.spec_at(i).insert_components.spec_get(c2);
        assert(w1.spec_at(t as int).spec_components() == w0.spec_at(t as int).spec_components());
        assert(w1.spec_at(i).spec_components() == w0.spec_at(i).spec_components());
    }
    assert forall|i: int, c2: u32|
        0 <= i < n && #[trigger] w1.spec_at(i).remove_components.spec_contains(c2) implies {
        let t = w1.spec_at(i).remove_components.spec_get(c2);
        t < n && is_remove_set(
            w1.spec_at(i).spec_components(),
            c2,
            w1.spec_at(t as int).spec_components(),
        )
    } by {
        assert(w1.spec_at(i).remove_components == w0.spec_at(i).remove_components) by {
            if i != s && i != d {
                assert(w1.spec_at(i) == w0.spec_at(i));
            }
        }
        assert(w0.spec_at(i).remove_components.spec_contains(c2));
        let t = w0.spec_at(i).remove_components.spec_get(c2);
        assert(w1.spec_at(t as int).spec_components() == w0.spec_at(t as int).spec_components());
        assert(w1.spec_at(i).spec_components() == w0.spec_at(i).spec_components());
    }
    assert forall|i: int, j: int, p: int, q: int|
        0 <= i < n && 0 <= j < n && 0 <= p < w1.spec_at(i).columns@.len() && 0 <= q < w1.spec_at(
            j,
        ).columns@.len() && (#[trigger] w1.spec_at(i).columns@[p]).component_idx == (
        #[trigger] w1.spec_at(j).columns@[q]).component_idx implies w1.spec_at(
        i,
    ).columns@[p].elem_size == w1.spec_at(j).columns@[q].elem_size && w1.spec_at(
        i,
    ).columns@[p].elem_align == w1.spec_at(j).columns@[q].elem_align && w1.spec_at(
        i,
    ).columns@[p].has_drop == w1.spec_at(j).columns@[q].has_drop by {
        if i != s && i != d {
            assert(w1.spec_at(i) == w0.spec_at(i));
            assert(w0.spec_at(i).columns@[p] == w1.spec_at(i).columns@[p]);
        }
        if j != s && j != d {
            assert(w1.spec_at(j) == w0.spec_at(j));
            assert(w0.spec_at(j).columns@[q] == w1.spec_at(j).columns@[q]);
        }
    }
}


/// The `New` notifications owed after registering one system on the first
/// `i` archetypes of the world, in index order.
pub open spec fn world_reg_notifs(w: Archetypes, i: int, info: SystemInfo) -> Seq<Notification>
    decreases i,
{
    if i <= 0 {
        Seq::empty()
    } else {
        world_reg_notifs(w, i - 1, info) + (if w.spec_at(i - 1).spec_matches(info) {
            seq![
                Notification {
                    reason: RefreshArchetypeReason::New,
                    archetype: ArchetypeIdx((i - 1) as u32),
                    system: info.id,
                },
            ]
        } else {
            Seq::empty()
        })
    }
}

/// Writing back one archetype whose rows or listeners changed, but whose
/// columns' identity and layout, edges and index did not, preserves the
/// graph invariant.
proof fn lemma_graph_after_one(w0: Archetypes, w1: Archetypes, t: int, a1: Archetype)
    requires
        w0.wf(),
        0 <= t < w0.spec_count(),
        a1.wf(),
        a1.columns@.len() == w0.spec_at(t).columns@.len(),
        forall|j: int|
            0 <= j < a1.columns@.len() ==> (#[trigger] a1.columns@[j]).component_idx == w0.spec_at(
                t,
            ).columns@[j].component_idx && a1.columns@[j].elem_size == w0.spec_at(
                t,
            ).columns@[j].elem_size && a1.columns@[j].elem_align == w0.spec_at(
                t,
            ).columns@[j].elem_align && a1.columns@[j].has_drop == w0.spec_at(
                t,
            ).columns@[j].has_drop,
        a1.index == w0.spec_at(t).index,
        a1.insert_components == w0.spec_at(t).insert_components,
        a1.remove_components == w0.spec_at(t).remove_components,
        slab_entries(w1.archetypes) == slab_entries(w0.archetypes).insert(t, a1),
        slab_next(w1.archetypes) == slab_next(w0.archetypes),
        slab_slots(w1.archetypes) == slab_slots(w0.archetypes),
        w1.by_components == w0.by_components,
    ensures
        w1.wf(),
        w1.spec_count() == w0.spec_count(),
        forall|i: int| 0 <= i < w0.spec_count() && i != t ==> w1.spec_at(i) == w0.spec_at(i),
        w1.spec_at(t) == a1,
{
    let n = w0.spec_count();
    assert(w1.spec_at(t) == a1);
    assert(a1.spec_components() =~= w0.spec_at(t).spec_components());
    assert forall|i: int|
        0 <= i < n implies w1.spec_at(i).spec_components() == w0.spec_at(
        i,
    ).spec_components() by {
        if i != t {
            assert(w1.spec_at(i) == w0.spec_at(i));
        }
    }
    assert forall|i: int|
        0 <= i < n implies (#[trigger] w1.spec_at(i)).wf() && w1.spec_at(i).index == ArchetypeIdx(
        i as u32,
    ) by {
        if i != t {
            assert(w1.spec_at(i) == w0.spec_at(i));
        }
    }
    assert(w1.spec_at(0).columns@.len() == 0) by {
        if t != 0 {
            assert(w1.spec_at(0) == w0.spec_at(0));
        }
    }
    assert forall|k: int|
        0 <= k < w1.by_components.pairs@.len() implies (#[trigger] w1.by_components.pairs@[k]).1
        < n && w1.spec_at(w1.by_components.pairs@[k].1 as int).spec_components()
        == w1.by_components.pairs@[k].0@ by {
        let u = w0.by_components.pairs@[k].1 as int;
        assert(w1.spec_at(u).spec_components() == w0.spec_at(u).spec_components());
    }
    assert forall|i: int|
        0 <= i < n implies w1.by_components.spec_contains(
        (#[trigger] w1.spec_at(i)).spec_components(),
    ) && w1.by_components.spec_get(w1.spec_at(i).spec_components()) == i as u32 by {
        assert(w1.spec_at(i).spec_components() == w0.spec_at(i).spec_components());
        assert(w0.by_components.spec_contains(w0.spec_at(i).spec_components()));
    }
    assert forall|i: int, c2: u32|
        0 <= i < n && #[trigger] w1.spec_at(i).insert_components.spec_contains(c2) implies {
        let u = w1.spec_at(i).insert_components.spec_get(c2);
        u < n && is_insert_set(
            w1.spec_at(i).spec_components(),
            c2,
            w1.spec_at(u as int).spec_components(),
        )
    } by {
        assert(w1.spec_at(i).insert_components == w0.spec_at(i).insert_components) by {
            if i != t {
                assert(w1.spec_at(i) == w0.spec_at(i));
            }
        }
        assert(w0.spec_at(i).insert_components.spec_contains(c2));
        let u = w0.spec_at(i).insert_components.spec_get(c2);
        assert(w1.spec_at(u as int).spec_components() == w0.spec_at(u as int).spec_components());
        assert(w1.spec_at(i).spec_components() == w0.spec_at(i).spec_components());
    }
    assert forall|i: int, c2: u32|
        0 <= i < n && #[trigger] w1.spec_at(i).remove_components.spec_contains(c2) implies {
        let u = w1.spec_at(i).remove_components.spec_get(c2);
        u < n && is_remove_set(
            w1.spec_at(i).spec_components(),
            c2,
            w1.spec_at(u as int).spec_components(),
        )
    } by {
        assert(w1.spec_at(i).remove_components == w0.spec_at(i).remove_components) by {
            if i != t {
                assert(w1.spec_at(i) == w0.spec_at(i));
            }
        }
        assert(w0.spec_at(i).remove_components.spec_contains(c2));
        let u = w0.spec_at(i).remove_components.spec_get(c2);
        assert(w1.spec_at(u as int).spec_components() == w0.spec_at(u as int).spec_components());
        assert(w1.spec_at(i).spec_components() == w0.spec_at(i).spec_components());
    }
    assert forall|i: int, j: int, p: int, q: int|
        0 <= i < n && 0 <= j < n && 0 <= p < w1.spec_at(i).columns@.len() && 0 <= q < w1.spec_at(
            j,
        ).columns@.len() && (#[trigger] w1.spec_at(i).columns@[p]).component_idx == (
        #[trigger] w1.spec_at(j).columns@[q]).component_idx implies w1.spec_at(
        i,
    ).columns@[p].elem_size == w1.spec_at(j).columns@[q].elem_size && w1.spec_at(
        i,
    ).columns@[p].elem_align == w1.spec_at(j).columns@[q].elem_align && w1.spec_at(
        i,
    ).columns@[p].has_drop == w1.spec_at(j).columns@[q].has_drop by {
        if i != t {
            assert(w1.spec_at(i) == w0.spec_at(i));
            assert(w0.spec_at(i).columns@[p] == w1.spec_at(i).columns@[p]);
        }
        if j != t {
            assert(w1.spec_at(j) == w0.spec_at(j));
            assert(w0.spec_at(j).columns@[q] == w1.spec_at(j).columns@[q]);
        }
    }
}

/// Unique archetypes: two indices with the same component set are the same
/// index.
pub proof fn lemma_unique_archetypes(w: Archetypes, i: int, j: int)
    requires
        w.wf(),
        0 <= i < w.spec_count(),
        0 <= j < w.spec_count(),
        w.spec_at(i).spec_components() == w.spec_at(j).spec_components(),
    ensures
        i == j,
{
    assert(w.by_components.spec_get(w.spec_at(i).spec_components()) == i as u32);
    assert(w.by_components.spec_get(w.spec_at(j).spec_components()) == j as u32);
}

/// Edge coherence: a cached insert edge points at the archetype whose set
/// is the source's with that component added; a remove edge, with it taken
/// out.
pub proof fn lemma_edge_coherence(w: Archetypes, i: int, c: u32)
    requires
        w.wf(),
        0 <= i < w.spec_count(),
    ensures
        w.spec_at(i).insert_components.spec_contains(c) ==> {
            let t = w.spec_at(i).insert_components.spec_get(c);
            t < w.spec_count() && is_insert_set(
                w.spec_at(i).spec_components(),
                c,
                w.spec_at(t as int).spec_components(),
            )
        },
        w.spec_at(i).remove_components.spec_contains(c) ==> {
            let t = w.spec_at(i).remove_components.spec_get(c);
            t < w.spec_count() && is_remove_set(
                w.spec_at(i).spec_components(),
                c,
                w.spec_at(t as int).spec_components(),
            )
        },
{
}

/// Location round trip: following the entity index from a live id leads to
/// an archetype whose row at the recorded index holds that id.
pub proof fn lemma_location_round_trip(w: Archetypes, e: Entities, id: u32)
    requires
        locations_consistent(w, e),
        e.spec_get(id) is Some,
    ensures
        ({
            let l = e.spec_get(id)->0;
            l.archetype.0 < w.spec_count() && l.row.0 < w.spec_at(
                l.archetype.0 as int,
            ).entity_ids@.len() && w.spec_at(l.archetype.0 as int).entity_ids@[l.row.0 as int]
                == id
        }),
{
    assert(e.view()[id as int] is Some);
}

/// All archetypes of one world, keyed by dense index and by component
/// set.
pub struct Archetypes {
    pub archetypes: Slab<Archetype>,
    pub by_components: CompMap,
}

impl Archetypes {
    /// The number of archetypes. Keys `0 .. count` are exactly the
    /// occupied arena entries.
    pub open spec fn spec_count(self) -> int {
        slab_next(self.archetypes)
    }

    /// The archetype at dense index `i`.
    pub open spec fn spec_at(self, i: int) -> Archetype {
        slab_entries(self.archetypes)[i]
    }

    /// Graph invariant: the arena is dense with archetype `i` carrying
    /// index `i`, index 0 is the archetype with no components, every
    /// archetype is well formed, `by_components` is a bijection between
    /// component sets and indices, cached edges point at the archetype for
    /// exactly the adjusted set, and columns of one component agree on
    /// their element layout everywhere.
    pub open spec fn wf(self) -> bool {
        let n = self.spec_count();
        &&& 1 <= n <= u32::MAX
        &&& slab_slots(self.archetypes) == n
        &&& forall|i: int| slab_entries(self.archetypes).contains_key(i) <==> 0 <= i < n
        &&& forall|i: int| 0 <= i < n ==> (#[trigger] self.spec_at(i)).wf()
        &&& forall|i: int|
            0 <= i < n ==> (#[trigger] self.spec_at(i)).index == ArchetypeIdx(i as u32)
        &&& self.spec_at(0).columns@.len() == 0
        &&& self.by_components.wf()
        &&& forall|k: int|
            0 <= k < self.by_components.pairs@.len() ==> (
            #[trigger] self.by_components.pairs@[k]).1 < n && self.spec_at(
                self.by_components.pairs@[k].1 as int,
            ).spec_components() == self.by_components.pairs@[k].0@
        &&& forall|i: int|
            0 <= i < n ==> self.by_components.spec_contains(
                (#[trigger] self.spec_at(i)).spec_components(),
            ) && self.by_components.spec_get(self.spec_at(i).spec_components()) == i as u32
        &&& forall|i: int, c: u32|
            0 <= i < n && #[trigger] self.spec_at(i).insert_components.spec_contains(c) ==> {
                let t = self.spec_at(i).insert_components.spec_get(c);
                t < n && is_insert_set(
                    self.spec_at(i).spec_components(),
                    c,
                    self.spec_at(t as int).spec_components(),
                )
            }
        &&& forall|i: int, c: u32|
            0 <= i < n && #[trigger] self.spec_at(i).remove_components.spec_contains(c) ==> {
                let t = self.spec_at(i).remove_components.spec_get(c);
                t < n && is_remove_set(
                    self.spec_at(i).spec_components(),
                    c,
                    self.spec_at(t as int).spec_components(),
                )
            }
        &&& forall|i: int, j: int, p: int, q: int|
            0 <= i < n && 0 <= j < n && 0 <= p < self.spec_at(i).columns@.len() && 0 <= q
                < self.spec_at(j).columns@.len() && (#[trigger] self.spec_at(i).columns@[p]).component_idx
                == (#[trigger] self.spec_at(j).columns@[q]).component_idx ==> self.spec_at(
                i,
            ).columns@[p].elem_size == self.spec_at(j).columns@[q].elem_size && self.spec_at(
                i,
            ).columns@[p].elem_align == self.spec_at(j).columns@[q].elem_align && self.spec_at(
                i,
            ).columns@[p].has_drop == self.spec_at(j).columns@[q].has_drop
    }

    /// A world that holds only the empty archetype, at index 0.
    pub fn new() -> (r: Self)
        ensures
            r.wf(),
            r.spec_count() == 1,
            r.spec_at(0).entity_ids@ == Seq::<u32>::empty(),
            r.spec_at(0).spec_components() == Seq::<u32>::empty(),
            r.spec_at(0).refresh_listeners.view() == Seq::<u32>::empty(),
            forall|c: u32| !r.spec_at(0).insert_components.spec_contains(c),
            forall|c: u32| !r.spec_at(0).remove_components.spec_contains(c),
    {
        let mut archetypes = slab_new();
        let empty = Archetype::empty();
        let ghost e = empty;
        let key = slab_insert(&mut archetypes, empty);
        let mut by_components = CompMap::new();
        let ckey: Vec<u32> = Vec::new();
        by_components.insert(ckey, 0);
        let r = Archetypes { archetypes, by_components };
        proof {
            assert(key == 0);
            assert(r.spec_at(0) == e);
            assert(Seq::<u32>::empty() =~= e.spec_components());
            assert(r.by_components.pairs@[0].0@ =~= Seq::<u32>::empty());
            assert(r.by_components.spec_contains(r.spec_at(0).spec_components()));
        }
        r
    }

    /// The archetype with no components.
    pub fn empty(&self) -> (r: &Archetype)
        requires
            self.wf(),
        ensures
            *r == self.spec_at(0),
    {
        match slab_get(&self.archetypes, 0) {
            Some(a) => a,
            None => unreached(),
        }
    }

    /// The archetype at `idx`, or `None` past the end.
    pub fn get(&self, idx: ArchetypeIdx) -> (r: Option<&Archetype>)
        requires
            self.wf(),
        ensures
            idx.0 < self.spec_count() ==> r == Some(&self.spec_at(idx.0 as int)),
            idx.0 >= self.spec_count() ==> r is None,
    {
        slab_get(&self.archetypes, idx.0 as usize)
    }

    /// The archetype whose component set is exactly `components`.
    pub fn get_by_components(&self, components: &Vec<u32>) -> (r: Option<&Archetype>)
        requires
            self.wf(),
        ensures
            match r {
                Some(a) => self.by_components.spec_contains(components@) && *a == self.spec_at(
                    self.by_components.spec_get(components@) as int,
                ),
                None => !self.by_components.spec_contains(components@),
            },
    {
        match self.by_components.get(components) {
            Some(idx) => match slab_get(&self.archetypes, idx as usize) {
                Some(a) => Some(a),
                None => unreached(),
            },
            None => None,
        }
    }

    /// Resolves the insert edge `src --component-->`: the archetype whose
    /// set is `src`'s with `component` added. A cached edge is returned at
    /// once; a known set is linked and cached; an unknown set allocates the
    /// next archetype index, builds the archetype with empty columns from
    /// the registry, seeds its reverse edge, registers every existing
    /// system on it, and installs it in both indices. The returned
    /// notifications are the `New` refreshes owed to systems that match a
    /// created archetype.
    pub fn traverse_insert(
        &mut self,
        src: ArchetypeIdx,
        component: ComponentIdx,
        comps: &Components,
        systems: &Vec<SystemInfo>,
    ) -> (r: (ArchetypeIdx, Vec<Notification>))
        requires
            old(self).wf(),
            registry_consistent(*old(self), *comps),
            comps.wf(),
            src.0 < old(self).spec_count(),
            component.0 < comps.view().len(),
            old(self).spec_count() < u32::MAX,
        ensures
            final(self).wf(),
            registry_consistent(*final(self), *comps),
            r.0.0 < final(self).spec_count(),
            is_insert_set(
                old(self).spec_at(src.0 as int).spec_components(),
                component.0,
                final(self).spec_at(r.0.0 as int).spec_components(),
            ),
            final(self).spec_at(src.0 as int).insert_components.spec_contains(component.0),
            final(self).spec_at(src.0 as int).insert_components.spec_get(component.0) == r.0.0,
            old(self).spec_at(src.0 as int).insert_components.spec_contains(component.0)
                ==> same_graph(*old(self), *final(self)) && r.0 == ArchetypeIdx(
                old(self).spec_at(src.0 as int).insert_components.spec_get(component.0),
            ) && r.1@ == Seq::<Notification>::empty(),
            final(self).spec_count() == old(self).spec_count() || final(self).spec_count() == old(
                self,
            ).spec_count() + 1,
            forall|i: int|
                0 <= i < old(self).spec_count() && i != src.0 as int ==> final(self).spec_at(i)
                    == old(self).spec_at(i),
            final(self).spec_at(src.0 as int) == (Archetype {
                insert_components: final(self).spec_at(src.0 as int).insert_components,
                ..old(self).spec_at(src.0 as int)
            }),
            final(self).spec_count() == old(self).spec_count() + 1 ==> ({
                &&& r.0.0 == old(self).spec_count()
                &&& final(self).spec_at(r.0.0 as int).entity_ids@ == Seq::<u32>::empty()
                &&& final(self).spec_at(r.0.0 as int).remove_components.spec_contains(component.0)
                &&& final(self).spec_at(r.0.0 as int).remove_components.spec_get(component.0)
                    == src.0
                &&& r.1@ == new_arch_notifs(
                    systems@,
                    final(self).spec_at(r.0.0 as int),
                    systems@.len() as int,
                )
            }),
            final(self).spec_count() == old(self).spec_count() ==> r.1@ == Seq::<
                Notification,
            >::empty(),
    {
        let src_key = src.0 as usize;
        let mut a = slab_exchange(&mut self.archetypes, src_key, Archetype::empty());
        let ghost a0 = a;
        let ghost w0 = *old(self);
        proof {
            assert(a0 == w0.spec_at(src.0 as int));
            assert(a0.wf());
        }
        match a.insert_components.get(component.0) {
            Some(d) => {
                let _ = slab_exchange(&mut self.archetypes, src_key, a);
                proof {
                    assert(slab_entries(self.archetypes) =~= slab_entries(w0.archetypes));
                    assert(w0.spec_at(src.0 as int).insert_components.spec_contains(component.0));
                    assert(d < w0.spec_count());
                    assert(same_graph(w0, *self));
                    lemma_graph_eq(w0, *self, *comps);
                }
                return (ArchetypeIdx(d), Vec::new());
            },
            None => {},
        }
        let already = match a.column_of(component) {
            Some(_) => true,
            None => false,
        };
        if already {
            proof {
                assert forall|p: int, q: int|
                    0 <= p < q < a0.spec_components().len() implies a0.spec_components()[p]
                    < a0.spec_components()[q] by {}
                assert(is_insert_set(a0.spec_components(), component.0, a0.spec_components()));
            }
            a.insert_components.insert(component.0, src.0);
            let ghost a1 = a;
            let _ = slab_exchange(&mut self.archetypes, src_key, a);
            proof {
                assert(slab_entries(self.archetypes) =~= slab_entries(w0.archetypes).insert(
                    src.0 as int,
                    a1,
                ));
                lemma_graph_after_src_edge(w0, *self, src.0 as int, a0, a1, component.0, src.0);
            }
            return (src, Vec::new());
        }
        proof {
            assert forall|p: int, q: int|
                0 <= p < q < a0.spec_components().len() implies a0.spec_components()[p]
                < a0.spec_components()[q] by {}
        }
        let set = a.component_indices();
        let new_set = insert_sorted_vec(&set, component.0);
        let ghost new_setv = new_set@;
        match self.by_components.get(&new_set) {
            Some(d) => {
                a.insert_components.insert(component.0, d);
                let ghost a1 = a;
                let _ = slab_exchange(&mut self.archetypes, src_key, a);
                proof {
                    assert(slab_entries(self.archetypes) =~= slab_entries(w0.archetypes).insert(
                        src.0 as int,
                        a1,
                    ));
                    lemma_graph_after_src_edge(w0, *self, src.0 as int, a0, a1, component.0, d);
                    assert(w0.spec_at(d as int).spec_components() == new_setv);
                }
                return (ArchetypeIdx(d), Vec::new());
            },
            None => {},
        }
        proof {
            assert forall|t: int| 0 <= t < new_setv.len() implies new_setv[t]
                < comps.view().len() by {
                assert(new_setv.contains(new_setv[t]));
                let x = new_setv[t];
                if x != component.0 {
                    assert(a0.spec_components().contains(x));
                    let p = choose|p: int|
                        0 <= p < a0.spec_components().len() && a0.spec_components()[p] == x;
                    assert(w0.spec_at(src.0 as int).columns@[p].component_idx.0 == x);
                }
            }
        }
        let n = slab_vacant_key(&self.archetypes);
        let mut new_arch = Archetype::new(ArchetypeIdx(n as u32), &new_set, comps);
        new_arch.remove_components.insert(component.0, src.0);
        let ghost base = new_arch;
        let mut notifs: Vec<Notification> = Vec::new();
        let m = systems.len();
        let mut si: usize = 0;
        while si < m
            invariant
                m == systems@.len(),
                si <= m,
                new_arch.wf(),
                new_arch.columns@ == base.columns@,
                new_arch.index == base.index,
                new_arch.entity_ids@ == base.entity_ids@,
                new_arch.ids_cap == base.ids_cap,
                new_arch.insert_components == base.insert_components,
                new_arch.remove_components == base.remove_components,
                notifs@ == new_arch_notifs(systems@, base, si as int),
            decreases m - si,
        {
            let ghost before = new_arch;
            let nt = new_arch.register_system(&systems[si]);
            proof {
                crate::archetype::lemma_matches_same(base, before, systems@[si as int]);
            }
            if let Some(x) = nt {
                notifs.push(x);
            }
            si += 1;
        }
        let ghost na = new_arch;
        proof {
            assert forall|p: int|
                0 <= p < na.columns@.len() implies ((#[trigger] na.columns@[p]).component_idx.0
                < comps.view().len() && na.columns@[p].elem_size == comps.spec_layout_of(
                na.columns@[p].component_idx.0,
            ).size && na.columns@[p].elem_align == comps.spec_layout_of(
                na.columns@[p].component_idx.0,
            ).align && na.columns@[p].has_drop == comps.spec_drop_of(
                na.columns@[p].component_idx.0,
            )) by {
                assert(na.spec_components()[p] == na.columns@[p].component_idx.0);
                assert(na.spec_components()[p] == new_setv[p]);
            }
        }
        a.insert_components.insert(component.0, n as u32);
        let ghost keyvec = new_set;
        self.by_components.insert(new_set, n as u32);
        let ghost a1 = a;
        let _ = slab_exchange(&mut self.archetypes, src_key, a);
        let ghost mid = *self;
        proof {
            assert(slab_entries(mid.archetypes) =~= slab_entries(w0.archetypes).insert(
                src.0 as int,
                a1,
            ));
        }
        let _ = slab_insert(&mut self.archetypes, new_arch);
        proof {
            lemma_graph_after_new_arch(
                w0,
                mid,
                *self,
                src.0 as int,
                a0,
                a1,
                component.0,
                na,
                keyvec,
                *comps,
            );
            lemma_notifs_same(systems@, base, self.spec_at(n as int), m as int);
        }
        (ArchetypeIdx(n as u32), notifs)
    }

    /// Resolves the remove edge `src --component-->`: the archetype whose
    /// set is `src`'s with `component` taken out, created on demand as in
    /// the insert direction, with the reverse insert edge seeded on the
    /// fresh archetype.
    pub fn traverse_remove(
        &mut self,
        src: ArchetypeIdx,
        component: ComponentIdx,
        comps: &Components,
        systems: &Vec<SystemInfo>,
    ) -> (r: (ArchetypeIdx, Vec<Notification>))
        requires
            old(self).wf(),
            registry_consistent(*old(self), *comps),
            comps.wf(),
            src.0 < old(self).spec_count(),
            component.0 < comps.view().len(),
            old(self).spec_count() < u32::MAX,
        ensures
            final(self).wf(),
            registry_consistent(*final(self), *comps),
            r.0.0 < final(self).spec_count(),
            is_remove_set(
                old(self).spec_at(src.0 as int).spec_components(),
                component.0,
                final(self).spec_at(r.0.0 as int).spec_components(),
            ),
            final(self).spec_at(src.0 as int).remove_components.spec_contains(component.0),
            final(self).spec_at(src.0 as int).remove_components.spec_get(component.0) == r.0.0,
            old(self).spec_at(src.0 as int).remove_components.spec_contains(component.0)
                ==> same_graph(*old(self), *final(self)) && r.0 == ArchetypeIdx(
                old(self).spec_at(src.0 as int).remove_components.spec_get(component.0),
            ) && r.1@ == Seq::<Notification>::empty(),
            final(self).spec_count() == old(self).spec_count() || final(self).spec_count() == old(self).spec_count() + 1,
            forall|i: int|
                0 <= i < old(self).spec_count() && i != src.0 as int ==> final(self).spec_at(i)
                    == old(self).spec_at(i),
            final(self).spec_at(src.0 as int) == (Archetype {
                remove_components: final(self).spec_at(src.0 as int).remove_components,
                ..old(self).spec_at(src.0 as int)
            }),
            final(self).spec_count() == old(self).spec_count() + 1 ==> ({
                &&& r.0.0 == old(self).spec_count()
                &&& final(self).spec_at(r.0.0 as int).entity_ids@ == Seq::<u32>::empty()
                &&& final(self).spec_at(r.0.0 as int).insert_components.spec_contains(component.0)
                &&& final(self).spec_at(r.0.0 as int).insert_components.spec_get(component.0)
                    == src.0
                &&& r.1@ == new_arch_notifs(
                    systems@,
                    final(self).spec_at(r.0.0 as int),
                    systems@.len() as int,
                )
            }),
            final(self).spec_count() == old(self).spec_count() ==> r.1@ == Seq::<
                Notification,
            >::empty(),
    {
        let src_key = src.0 as usize;
        let mut a = slab_exchange(&mut self.archetypes, src_key, Archetype::empty());
        let ghost a0 = a;
        let ghost w0 = *old(self);
        proof {
            assert(a0 == w0.spec_at(src.0 as int));
            assert(a0.wf());
        }
        match a.remove_components.get(component.0) {
            Some(d) => {
                let _ = slab_exchange(&mut self.archetypes, src_key, a);
                proof {
                    assert(slab_entries(self.archetypes) =~= slab_entries(w0.archetypes));
                    assert(w0.spec_at(src.0 as int).remove_components.spec_contains(component.0));
                    assert(d < w0.spec_count());
                    assert(same_graph(w0, *self));
                    lemma_graph_eq(w0, *self, *comps);
                }
                return (ArchetypeIdx(d), Vec::new());
            },
            None => {},
        }
        let missing = match a.column_of(component) {
            Some(_) => false,
            None => true,
        };
        if missing {
            proof {
                assert forall|p: int, q: int|
                    0 <= p < q < a0.spec_components().len() implies a0.spec_components()[p]
                    < a0.spec_components()[q] by {}
                assert(is_remove_set(a0.spec_components(), component.0, a0.spec_components()));
            }
            a.remove_components.insert(component.0, src.0);
            let ghost a1 = a;
            let _ = slab_exchange(&mut self.archetypes, src_key, a);
            proof {
                assert(slab_entries(self.archetypes) =~= slab_entries(w0.archetypes).insert(
                    src.0 as int,
                    a1,
                ));
                lemma_graph_after_src_remove_edge(
                    w0,
                    *self,
                    src.0 as int,
                    a0,
                    a1,
                    component.0,
                    src.0,
                );
            }
            return (src, Vec::new());
        }
        proof {
            assert forall|p: int, q: int|
                0 <= p < q < a0.spec_components().len() implies a0.spec_components()[p]
                < a0.spec_components()[q] by {}
        }
        let set = a.component_indices();
        let new_set = remove_sorted_vec(&set, component.0);
        let ghost new_setv = new_set@;
        match self.by_components.get(&new_set) {
            Some(d) => {
                a.remove_components.insert(component.0, d);
                let ghost a1 = a;
                let _ = slab_exchange(&mut self.archetypes, src_key, a);
                proof {
                    assert(slab_entries(self.archetypes) =~= slab_entries(w0.archetypes).insert(
                        src.0 as int,
                        a1,
                    ));
                    lemma_graph_after_src_remove_edge(
                        w0,
                        *self,
                        src.0 as int,
                        a0,
                        a1,
                        component.0,
                        d,
                    );
                    assert(w0.spec_at(d as int).spec_components() == new_setv);
                }
                return (ArchetypeIdx(d), Vec::new());
            },
            None => {},
        }
        proof {
            assert forall|t: int| 0 <= t < new_setv.len() implies new_setv[t]
                < comps.view().len() by {
                assert(new_setv.contains(new_setv[t]));
                let x = new_setv[t];
                assert(a0.spec_components().contains(x));
                let p = choose|p: int|
                    0 <= p < a0.spec_components().len() && a0.spec_components()[p] == x;
                assert(w0.spec_at(src.0 as int).columns@[p].component_idx.0 == x);
            }
        }
        let n = slab_vacant_key(&self.archetypes);
        let mut new_arch = Archetype::new(ArchetypeIdx(n as u32), &new_set, comps);
        new_arch.insert_components.insert(component.0, src.0);
        let ghost base = new_arch;
        let mut notifs: Vec<Notification> = Vec::new();
        let m = systems.len();
        let mut si: usize = 0;
        while si < m
            invariant
                m == systems@.len(),
                si <= m,
                new_arch.wf(),
                new_arch.columns@ == base.columns@,
                new_arch.index == base.index,
                new_arch.entity_ids@ == base.entity_ids@,
                new_arch.ids_cap == base.ids_cap,
                new_arch.insert_components == base.insert_components,
                new_arch.remove_components == base.remove_components,
                notifs@ == new_arch_notifs(systems@, base, si as int),
            decreases m - si,
        {
            let ghost before = new_arch;
            let nt = new_arch.register_system(&systems[si]);
            proof {
                crate::archetype::lemma_matches_same(base, before, systems@[si as int]);
            }
            if let Some(x) = nt {
                notifs.push(x);
            }
            si += 1;
        }
        let ghost na = new_arch;
        proof {
            assert forall|p: int|
                0 <= p < na.columns@.len() implies ((#[trigger] na.columns@[p]).component_idx.0
                < comps.view().len() && na.columns@[p].elem_size == comps.spec_layout_of(
                na.columns@[p].component_idx.0,
            ).size && na.columns@[p].elem_align == comps.spec_layout_of(
                na.columns@[p].component_idx.0,
            ).align && na.columns@[p].has_drop == comps.spec_drop_of(
                na.columns@[p].component_idx.0,
            )) by {
                assert(na.spec_components()[p] == na.columns@[p].component_idx.0);
                assert(na.spec_components()[p] == new_setv[p]);
            }
        }
        a.remove_components.insert(component.0, n as u32);
        let ghost keyvec = new_set;
        self.by_components.insert(new_set, n as u32);
        let ghost a1 = a;
        let _ = slab_exchange(&mut self.archetypes, src_key, a);
        let ghost mid = *self;
        proof {
            assert(slab_entries(mid.archetypes) =~= slab_entries(w0.archetypes).insert(
                src.0 as int,
                a1,
            ));
        }
        let _ = slab_insert(&mut self.archetypes, new_arch);
        proof {
            lemma_graph_after_new_arch_remove(
                w0,
                mid,
                *self,
                src.0 as int,
                a0,
                a1,
                component.0,
                na,
                keyvec,
                *comps,
            );
            lemma_notifs_same(systems@, base, self.spec_at(n as int), m as int);
        }
        (ArchetypeIdx(n as u32), notifs)
    }


    /// Moves the entity at `src` into archetype `dst`, merging in the
    /// caller-supplied values for the components `dst` adds and dropping
    /// the ones it lacks. The entity index is patched for the moved entity
    /// and for the one the swap-removal reordered. Returns the entity's
    /// row in `dst` and the notifications owed, in delivery order. A move
    /// whose destination is the source archetype does nothing.
    pub fn move_entity(
        &mut self,
        src: EntityLocation,
        dst: ArchetypeIdx,
        new_components: &Vec<(u32, Vec<u8>)>,
        entities: &mut Entities,
    ) -> (r: (ArchetypeRow, Vec<Notification>))
        requires
            old(self).wf(),
            locations_consistent(*old(self), *old(entities)),
            src.archetype.0 < old(self).spec_count(),
            dst.0 < old(self).spec_count(),
            src.row.0 < old(self).spec_at(src.archetype.0 as int).entity_ids@.len(),
            src.archetype != dst ==> new_values_ok(
                old(self).spec_at(src.archetype.0 as int),
                old(self).spec_at(dst.0 as int),
                new_components@,
            ),
            src.archetype != dst ==> forall|k: int|
                0 <= k < old(self).spec_at(dst.0 as int).columns@.len() ==> (#[trigger] old(
                    self,
                ).spec_at(dst.0 as int).columns@[k]).bytes@.len() + old(self).spec_at(
                    dst.0 as int,
                ).columns@[k].elem_size <= usize::MAX,
            src.archetype != dst ==> old(self).spec_at(dst.0 as int).entity_ids@.len() < u32::MAX,
        ensures
            final(self).wf(),
            locations_consistent(*final(self), *final(entities)),
            src.archetype == dst ==> r.0 == src.row && r.1@ == Seq::<Notification>::empty()
                && *final(self) == *old(self) && *final(entities) == *old(entities),
            src.archetype != dst ==> ({
                let sa0 = old(self).spec_at(src.archetype.0 as int);
                let da0 = old(self).spec_at(dst.0 as int);
                let moved = sa0.entity_ids@[src.row.0 as int];
                &&& r.0 == ArchetypeRow(da0.entity_ids@.len() as u32)
                &&& r.1@ == move_notifs(*old(self), src, dst)
                &&& final(self).spec_count() == old(self).spec_count()
                &&& final(self).by_components == old(self).by_components
                &&& forall|i: int|
                    0 <= i < old(self).spec_count() && i != src.archetype.0 as int && i
                        != dst.0 as int ==> final(self).spec_at(i) == old(self).spec_at(i)
                &&& final(self).spec_at(src.archetype.0 as int) == (Archetype {
                    entity_ids: final(self).spec_at(src.archetype.0 as int).entity_ids,
                    columns: final(self).spec_at(src.archetype.0 as int).columns,
                    ..sa0
                })
                &&& final(self).spec_at(dst.0 as int) == (Archetype {
                    entity_ids: final(self).spec_at(dst.0 as int).entity_ids,
                    columns: final(self).spec_at(dst.0 as int).columns,
                    ids_cap: final(self).spec_at(dst.0 as int).ids_cap,
                    ..da0
                })
                &&& final(self).spec_at(src.archetype.0 as int).entity_ids@ == swap_removed(
                    sa0.entity_ids@,
                    src.row.0 as int,
                )
                &&& final(self).spec_at(dst.0 as int).entity_ids@ == da0.entity_ids@.push(moved)
                &&& forall|j: int|
                    0 <= j < sa0.columns@.len() ==> crate::column::Column::is_removed_at(
                        sa0.columns@[j],
                        #[trigger] final(self).spec_at(src.archetype.0 as int).columns@[j],
                        src.row.0 as int,
                        !da0.spec_components().contains(sa0.columns@[j].component_idx.0),
                    )
                &&& forall|k: int|
                    0 <= k < da0.columns@.len() ==> crate::column::Column::is_pushed(
                        da0.columns@[k],
                        #[trigger] final(self).spec_at(dst.0 as int).columns@[k],
                        moved_value(sa0, da0, new_components@, src.row.0 as int, k),
                        sa0.spec_components().contains(da0.columns@[k].component_idx.0),
                    )
                &&& final(entities).view().len() == old(entities).view().len()
                &&& final(entities).spec_get(moved) == Some(
                    EntityLocation { archetype: dst, row: r.0 },
                )
                &&& forall|id: int|
                    0 <= id < old(entities).view().len() && id != moved && id != sa0.entity_ids@[
                        sa0.entity_ids@.len() - 1] ==> final(entities).view()[id] == old(
                        entities,
                    ).view()[id]
                &&& src.row.0 as int != sa0.entity_ids@.len() - 1 ==> final(entities).spec_get(
                    sa0.entity_ids@[sa0.entity_ids@.len() - 1],
                ) == Some(EntityLocation { archetype: src.archetype, row: src.row })
            }),
    {
        if src.archetype.0 == dst.0 {
            return (src.row, Vec::new());
        }
        let ghost w0 = *old(self);
        let ghost e0 = *old(entities);
        let ghost s = src.archetype.0 as int;
        let ghost d = dst.0 as int;
        let src_key = src.archetype.0 as usize;
        let dst_key = dst.0 as usize;
        let mut sa = slab_exchange(&mut self.archetypes, src_key, Archetype::empty());
        let mut da = slab_exchange(&mut self.archetypes, dst_key, Archetype::empty());
        let ghost sa0 = sa;
        let ghost da0 = da;
        proof {
            assert(sa0 == w0.spec_at(s));
            assert(da0 == w0.spec_at(d));
            assert(sa0.wf());
            assert(da0.wf());
            assert forall|k: int, j: int|
                0 <= k < da0.columns@.len() && 0 <= j < sa0.columns@.len() && (
            #[trigger] da0.columns@[k]).component_idx == (
            #[trigger] sa0.columns@[j]).component_idx implies da0.columns@[k].elem_size
                == sa0.columns@[j].elem_size by {
                assert(w0.spec_at(d).columns@[k] == da0.columns@[k]);
                assert(w0.spec_at(s).columns@[j] == sa0.columns@[j]);
            }
        }
        let outcome = move_row(&mut sa, &mut da, src.row.0 as usize, new_components);
        let ghost moved = outcome.moved_entity;
        let ghost row = src.row.0 as int;
        let ghost last = sa0.entity_ids@.len() - 1;
        proof {
            assert(sa0.entity_ids@[row] == moved);
            assert(e0.view()[moved as int] == Some(src)) by {
                assert(ArchetypeIdx(s as u32) == src.archetype);
                assert(ArchetypeRow(row as u32) == src.row);
            }
        }
        entities.set_location(
            outcome.moved_entity,
            EntityLocation { archetype: dst, row: ArchetypeRow(outcome.dst_row) },
        );
        if let Some(sw) = outcome.swapped_entity {
            proof {
                assert(sw == sa.entity_ids@[row]);
                assert(sw == sa0.entity_ids@[last]);
                assert(e0.view()[sw as int] == Some(
                    EntityLocation { archetype: src.archetype, row: ArchetypeRow(last as u32) },
                )) by {
                    assert(ArchetypeIdx(s as u32) == src.archetype);
                }
                assert(sw != moved) by {
                    if sw == moved {
                        assert(e0.view()[moved as int]->0.row.0 == row);
                    }
                }
            }
            entities.set_location(sw, EntityLocation { archetype: src.archetype, row: src.row });
        }
        let mut notifs: Vec<Notification> = Vec::new();
        if sa.entity_ids().len() == 0 {
            push_notifs(
                &mut notifs,
                sa.refresh_listeners.ids(),
                RefreshArchetypeReason::Empty,
                src.archetype,
            );
        }
        if outcome.reallocated {
            push_notifs(
                &mut notifs,
                da.refresh_listeners.ids(),
                RefreshArchetypeReason::RefreshPointers,
                dst,
            );
        }
        if da.entity_ids().len() == 1 {
            push_notifs(
                &mut notifs,
                da.refresh_listeners.ids(),
                RefreshArchetypeReason::Nonempty,
                dst,
            );
        }
        proof {
            assert(notifs@ =~= move_notifs(w0, src, dst));
        }
        let ghost sa1 = sa;
        let ghost da1 = da;
        let _ = slab_exchange(&mut self.archetypes, src_key, sa);
        let _ = slab_exchange(&mut self.archetypes, dst_key, da);
        proof {
            assert(slab_entries(self.archetypes) =~= slab_entries(w0.archetypes).insert(
                s,
                sa1,
            ).insert(d, da1));
            assert forall|j: int|
                0 <= j < sa1.columns@.len() implies (#[trigger] sa1.columns@[j]).component_idx
                == w0.spec_at(s).columns@[j].component_idx && sa1.columns@[j].elem_size
                == w0.spec_at(s).columns@[j].elem_size && sa1.columns@[j].elem_align == w0.spec_at(
                s,
            ).columns@[j].elem_align && sa1.columns@[j].has_drop == w0.spec_at(
                s,
            ).columns@[j].has_drop by {
                assert(crate::column::Column::is_removed_at(
                    sa0.columns@[j],
                    sa1.columns@[j],
                    row,
                    !da0.spec_components().contains(sa0.columns@[j].component_idx.0),
                ));
            }
            assert forall|k: int|
                0 <= k < da1.columns@.len() implies (#[trigger] da1.columns@[k]).component_idx
                == w0.spec_at(d).columns@[k].component_idx && da1.columns@[k].elem_size
                == w0.spec_at(d).columns@[k].elem_size && da1.columns@[k].elem_align == w0.spec_at(
                d,
            ).columns@[k].elem_align && da1.columns@[k].has_drop == w0.spec_at(
                d,
            ).columns@[k].has_drop by {
                assert(crate::column::Column::is_pushed(
                    da0.columns@[k],
                    da1.columns@[k],
                    moved_value(sa0, da0, new_components@, row, k),
                    sa0.spec_components().contains(da0.columns@[k].component_idx.0),
                ));
            }
            lemma_graph_after_move(w0, *self, s, d, sa1, da1);
            let w1 = *self;
            let e1 = *entities;
            // forward: every stored id maps back to its row
            assert forall|a: int, rr: int|
                0 <= a < w1.spec_count() && 0 <= rr < w1.spec_at(a).entity_ids@.len() implies {
                let id = #[trigger] w1.spec_at(a).entity_ids@[rr];
                id < e1.view().len() && e1.view()[id as int] == Some(
                    EntityLocation {
                        archetype: ArchetypeIdx(a as u32),
                        row: ArchetypeRow(rr as u32),
                    },
                )
            } by {
                let id = w1.spec_at(a).entity_ids@[rr];
                if a == d {
                    if rr < da0.entity_ids@.len() {
                        assert(id == da0.entity_ids@[rr]);
                        assert(e0.view()[id as int] == Some(
                            EntityLocation {
                                archetype: ArchetypeIdx(a as u32),
                                row: ArchetypeRow(rr as u32),
                            },
                        ));
                        assert(id != moved);
                        if row < last {
                            assert(id != sa0.entity_ids@[last]) by {
                                if id == sa0.entity_ids@[last] {
                                    assert(e0.view()[id as int]->0.archetype.0 == s);
                                }
                            }
                        }
                    } else {
                        assert(id == moved);
                    }
                } else if a == s {
                    assert(w1.spec_at(s).entity_ids@ == swap_removed(sa0.entity_ids@, row));
                    if rr == row {
                        assert(id == sa0.entity_ids@[last]);
                        assert(row < last);
                    } else {
                        assert(id == sa0.entity_ids@[rr]);
                        assert(e0.view()[id as int] == Some(
                            EntityLocation {
                                archetype: ArchetypeIdx(a as u32),
                                row: ArchetypeRow(rr as u32),
                            },
                        ));
                        assert(id != moved) by {
                            if id == moved {
                                assert(e0.view()[moved as int]->0.row.0 == row);
                            }
                        }
                        assert(id != sa0.entity_ids@[last]) by {
                            if id == sa0.entity_ids@[last] {
                                assert(e0.view()[id as int]->0.row.0 as int == last);
                                assert(rr == last);
                            }
                        }
                    }
                } else {
                    assert(w1.spec_at(a) == w0.spec_at(a));
                    assert(id == w0.spec_at(a).entity_ids@[rr]);
                    assert(e0.view()[id as int] == Some(
                        EntityLocation {
                            archetype: ArchetypeIdx(a as u32),
                            row: ArchetypeRow(rr as u32),
                        },
                    ));
                    assert(id != moved) by {
                        if id == moved {
                            assert(e0.view()[moved as int]->0.archetype.0 as int == s);
                        }
                    }
                    if row < last {
                        assert(id != sa0.entity_ids@[last]) by {
                            if id == sa0.entity_ids@[last] {
                                assert(e0.view()[id as int]->0.archetype.0 as int == s);
                            }
                        }
                    }
                }
            }
            // backward: every recorded location holds its id
            assert forall|id: int|
                0 <= id < e1.view().len() && (#[trigger] e1.view()[id]) is Some implies {
                let l = e1.view()[id]->0;
                l.archetype.0 < w1.spec_count() && l.row.0 < w1.spec_at(
                    l.archetype.0 as int,
                ).entity_ids@.len() && w1.spec_at(l.archetype.0 as int).entity_ids@[l.row.0 as int]
                    == id as u32
            } by {
                if id == moved {
                    assert(e1.view()[id] == Some(
                        EntityLocation { archetype: dst, row: ArchetypeRow(outcome.dst_row) },
                    ));
                    assert(w1.spec_at(d).entity_ids@ == da0.entity_ids@.push(moved));
                } else if row < last && id == sa0.entity_ids@[last] {
                    assert(e1.view()[id] == Some(
                        EntityLocation { archetype: src.archetype, row: src.row },
                    ));
                    assert(w1.spec_at(s).entity_ids@ == swap_removed(sa0.entity_ids@, row));
                    assert(w1.spec_at(s).entity_ids@[row] == sa0.entity_ids@[last]);
                } else {
                    assert(e1.view()[id] == e0.view()[id]);
                    let l = e0.view()[id]->0;
                    let la = l.archetype.0 as int;
                    let lr = l.row.0 as int;
                    assert(w0.spec_at(la).entity_ids@[lr] == id as u32);
                    if la == s {
                        assert(lr != row) by {
                            if lr == row {
                                assert(sa0.entity_ids@[row] == id as u32);
                            }
                        }
                        assert(lr != last) by {
                            if lr == last {
                                assert(sa0.entity_ids@[last] == id as u32);
                                if row < last {
                                } else {
                                    assert(row == last);
                                    assert(sa0.entity_ids@[row] == id as u32);
                                }
                            }
                        }
                        assert(w1.spec_at(s).entity_ids@ == swap_removed(sa0.entity_ids@, row));
                        assert(w1.spec_at(s).entity_ids@[lr] == sa0.entity_ids@[lr]);
                    } else if la == d {
                        assert(w1.spec_at(d).entity_ids@ == da0.entity_ids@.push(moved));
                        assert(w1.spec_at(d).entity_ids@[lr] == da0.entity_ids@[lr]);
                    } else {
                        assert(w1.spec_at(la) == w0.spec_at(la));
                    }
                }
            }
        }
        (ArchetypeRow(outcome.dst_row), notifs)
    }


    /// Registers one system on every archetype of the world, in index
    /// order, and returns the `New` refreshes owed to it.
    pub fn register_system(&mut self, info: &SystemInfo) -> (r: Vec<Notification>)
        requires
            old(self).wf(),
        ensures
            final(self).wf(),
            final(self).spec_count() == old(self).spec_count(),
            final(self).by_components == old(self).by_components,
            forall|i: int|
                0 <= i < old(self).spec_count() ==> crate::archetype::reg_effect(
                    old(self).spec_at(i),
                    #[trigger] final(self).spec_at(i),
                    *info,
                ),
            r@ == world_reg_notifs(*old(self), old(self).spec_count(), *info),
    {
        let ghost w0 = *old(self);
        let n = slab_vacant_key(&self.archetypes);
        let mut notifs: Vec<Notification> = Vec::new();
        let mut i: usize = 0;
        while i < n
            invariant
                w0.wf(),
                n == w0.spec_count(),
                i <= n,
                slab_next(self.archetypes) == slab_next(w0.archetypes),
                slab_slots(self.archetypes) == slab_slots(w0.archetypes),
                forall|t: int|
                    slab_entries(self.archetypes).contains_key(t) == slab_entries(
                        w0.archetypes,
                    ).contains_key(t),
                self.by_components == w0.by_components,
                self.wf(),
                forall|t: int| i <= t < n ==> self.spec_at(t) == w0.spec_at(t),
                forall|t: int|
                    0 <= t < i ==> crate::archetype::reg_effect(
                        w0.spec_at(t),
                        #[trigger] self.spec_at(t),
                        *info,
                    ),
                notifs@ == world_reg_notifs(w0, i as int, *info),
            decreases n - i,
        {
            let ghost wcur = *self;
            let mut a = slab_exchange(&mut self.archetypes, i, Archetype::empty());
            let ghost acur = a;
            proof {
                assert(acur == wcur.spec_at(i as int));
                assert(acur.wf());
            }
            let nt = a.register_system(info);
            let ghost a1 = a;
            let _ = slab_exchange(&mut self.archetypes, i, a);
            proof {
                assert(acur == w0.spec_at(i as int));
                assert(slab_entries(self.archetypes) =~= slab_entries(wcur.archetypes).insert(
                    i as int,
                    a1,
                ));
                lemma_graph_after_one(wcur, *self, i as int, a1);
                assert(crate::archetype::reg_effect(w0.spec_at(i as int), a1, *info));
                assert(acur.index == ArchetypeIdx(i as u32));
            }
            if let Some(x) = nt {
                notifs.push(x);
            }
            i += 1;
        }
        notifs
    }

    /// Creates an entity in the archetype with no components: allocates the
    /// next entity id, appends its row, and records its location. This path
    /// fires no notifications.
    pub fn spawn_entity(&mut self, entities: &mut Entities) -> (r: (u32, ArchetypeRow))
        requires
            old(self).wf(),
            locations_consistent(*old(self), *old(entities)),
            old(entities).view().len() < u32::MAX,
            old(self).spec_at(0).entity_ids@.len() < u32::MAX,
        ensures
            final(self).wf(),
            locations_consistent(*final(self), *final(entities)),
            r.0 == old(entities).view().len(),
            r.1 == ArchetypeRow(old(self).spec_at(0).entity_ids@.len() as u32),
            final(entities).view() == old(entities).view().push(
                Some(EntityLocation { archetype: ArchetypeIdx(0), row: r.1 }),
            ),
            final(self).spec_count() == old(self).spec_count(),
            final(self).by_components == old(self).by_components,
            forall|i: int|
                1 <= i < old(self).spec_count() ==> final(self).spec_at(i) == old(self).spec_at(i),
            final(self).spec_at(0).entity_ids@ == old(self).spec_at(0).entity_ids@.push(r.0),
            final(self).spec_at(0).columns@ == old(self).spec_at(0).columns@,
            final(self).spec_at(0).index == old(self).spec_at(0).index,
            final(self).spec_at(0).insert_components == old(self).spec_at(0).insert_components,
            final(self).spec_at(0).remove_components == old(self).spec_at(0).remove_components,
            final(self).spec_at(0).refresh_listeners == old(self).spec_at(0).refresh_listeners,
            final(self).spec_at(0).event_listeners == old(self).spec_at(0).event_listeners,
    {
        let ghost w0 = *old(self);
        let ghost e0 = *old(entities);
        let id = entities.len() as u32;
        let mut a = slab_exchange(&mut self.archetypes, 0, Archetype::empty());
        let ghost a0g = a;
        proof {
            assert(a0g == w0.spec_at(0));
            assert(a0g.wf());
        }
        let values: Vec<Vec<u8>> = Vec::new();
        let row = a.add_entity(id, &values);
        let ghost a1 = a;
        let _ = slab_exchange(&mut self.archetypes, 0, a);
        let _ = entities.spawn(EntityLocation { archetype: ArchetypeIdx(0), row });
        proof {
            assert(a1.columns@ =~= a0g.columns@);
            assert(slab_entries(self.archetypes) =~= slab_entries(w0.archetypes).insert(0, a1));
            lemma_graph_after_one(w0, *self, 0, a1);
            let w1 = *self;
            let e1 = *entities;
            let cnt = a0g.entity_ids@.len();
            assert forall|aa: int, rr: int|
                0 <= aa < w1.spec_count() && 0 <= rr < w1.spec_at(aa).entity_ids@.len() implies {
                let stored = #[trigger] w1.spec_at(aa).entity_ids@[rr];
                stored < e1.view().len() && e1.view()[stored as int] == Some(
                    EntityLocation {
                        archetype: ArchetypeIdx(aa as u32),
                        row: ArchetypeRow(rr as u32),
                    },
                )
            } by {
                if aa == 0 && rr == cnt {
                    assert(w1.spec_at(0).entity_ids@[rr] == id);
                } else {
                    if aa != 0 {
                        assert(w1.spec_at(aa) == w0.spec_at(aa));
                    }
                    let stored = w1.spec_at(aa).entity_ids@[rr];
                    assert(stored == w0.spec_at(aa).entity_ids@[rr]);
                    assert(e0.view()[stored as int] == Some(
                        EntityLocation {
                            archetype: ArchetypeIdx(aa as u32),
                            row: ArchetypeRow(rr as u32),
                        },
                    ));
                    assert(e1.view()[stored as int] == e0.view()[stored as int]);
                }
            }
            assert forall|sid: int|
                0 <= sid < e1.view().len() && (#[trigger] e1.view()[sid]) is Some implies {
                let l = e1.view()[sid]->0;
                l.archetype.0 < w1.spec_count() && l.row.0 < w1.spec_at(
                    l.archetype.0 as int,
                ).entity_ids@.len() && w1.spec_at(l.archetype.0 as int).entity_ids@[l.row.0 as int]
                    == sid as u32
            } by {
                if sid == id as int {
                    assert(w1.spec_at(0).entity_ids@[cnt as int] == id);
                } else {
                    assert(e1.view()[sid] == e0.view()[sid]);
                    let l = e0.view()[sid]->0;
                    if l.archetype.0 as int != 0 {
                        assert(w1.spec_at(l.archetype.0 as int) == w0.spec_at(
                            l.archetype.0 as int,
                        ));
                    } else {
                        assert(w1.spec_at(0).entity_ids@[l.row.0 as int] == w0.spec_at(
                            0,
                        ).entity_ids@[l.row.0 as int]);
                    }
                }
            }
        }
        (id, row)
    }

    /// All archetypes, in dense-index order.
    pub fn iter(&self) -> (r: Vec<&Archetype>)
        requires
            self.wf(),
        ensures
            r@.len() == self.spec_count(),
            forall|i: int| 0 <= i < r@.len() ==> *(#[trigger] r@[i]) == self.spec_at(i),
    {
        let n = slab_vacant_key(&self.archetypes);
        let mut r: Vec<&Archetype> = Vec::new();
        let mut i: usize = 0;
        while i < n
            invariant
                self.wf(),
                n == self.spec_count(),
                i <= n,
                r@.len() == i,
                forall|j: int| 0 <= j < i ==> *(#[trigger] r@[j]) == self.spec_at(j),
            decreases n - i,
        {
            match slab_get(&self.archetypes, i) {
                Some(a) => r.push(a),
                None => unreached(),
            }
            i += 1;
        }
        r
    }
}

} // verus!
