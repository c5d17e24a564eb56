//! Small association containers used by the archetype graph: association
//! lists with unique keys, and a sorted set of system ids.

use vstd::prelude::*;

verus! {

/// Map from a component index to an archetype index, used for the cached
/// insert/remove edges of one archetype. Keys are unique; order is not
/// observable.
#[derive(Debug)]
pub struct EdgeMap {
    pub pairs: Vec<(u32, u32)>,
}

impl EdgeMap {
    pub open spec fn wf(self) -> bool {
        forall|i: int, j: int|
            0 <= i < j < self.pairs@.len() ==> self.pairs@[i].0 != self.pairs@[j].0
    }

    pub open spec fn spec_contains(self, k: u32) -> bool {
        exists|i: int| 0 <= i < self.pairs@.len() && self.pairs@[i].0 == k
    }

    pub open spec fn spec_get(self, k: u32) -> u32 {
        self.pairs@[choose|i: int| 0 <= i < self.pairs@.len() && self.pairs@[i].0 == k].1
    }

    pub fn new() -> (r: Self)
        ensures
            r.wf(),
            forall|k: u32| !r.spec_contains(k),
    {
        EdgeMap { pairs: Vec::new() }
    }

    pub fn get(&self, k: u32) -> (r: Option<u32>)
        requires
            self.wf(),
        ensures
            r == if self.spec_contains(k) {
                Some(self.spec_get(k))
            } else {
                None::<u32>
            },
    {
        let n = self.pairs.len();
        let mut i: usize = 0;
        while i < n
            invariant
                n == self.pairs@.len(),
                i <= n,
                self.wf(),
                forall|j: int| 0 <= j < i ==> self.pairs@[j].0 != k,
            decreases n - i,
        {
            if self.pairs[i].0 == k {
                proof {
                    let c = choose|j: int| 0 <= j < self.pairs@.len() && self.pairs@[j].0 == k;
                    assert(c == i);
                }
                return Some(self.pairs[i].1);
            }
            i += 1;
        }
        None
    }

    pub fn insert(&mut self, k: u32, v: u32)
        requires
            old(self).wf(),
            !old(self).spec_contains(k),
        ensures
            final(self).wf(),
            final(self).spec_contains(k),
            final(self).spec_get(k) == v,
            forall|k2: u32|
                k2 != k ==> final(self).spec_contains(k2) == old(self).spec_contains(k2),
            forall|k2: u32|
                k2 != k && old(self).spec_contains(k2) ==> final(self).spec_get(k2) == old(self).spec_get(k2),
    {
        let ghost n = self.pairs@.len() as int;
        self.pairs.push((k, v));
        proof {
            assert forall|i: int, j: int|
                0 <= i < j < self.pairs@.len() implies self.pairs@[i].0 != self.pairs@[j].0 by {
                if j == n {
                    assert(self.pairs@[i] == old(self).pairs@[i]);
                }
            }
            assert(self.pairs@[n].0 == k);
            let c = choose|i: int| 0 <= i < self.pairs@.len() && self.pairs@[i].0 == k;
            assert(c == n);
            assert forall|k2: u32| k2 != k && final(self).spec_contains(k2) implies old(self).spec_contains(k2) by {
                let i = choose|i: int| 0 <= i < self.pairs@.len() && self.pairs@[i].0 == k2;
                assert(i < n);
                assert(old(self).pairs@[i].0 == k2);
            }
            assert forall|k2: u32| k2 != k && old(self).spec_contains(k2) implies final(self).spec_contains(k2) && final(self).spec_get(k2) == old(self).spec_get(k2) by {
                let i = choose|i: int|
                    0 <= i < old(self).pairs@.len() && old(self).pairs@[i].0 == k2;
                assert(self.pairs@[i].0 == k2);
                let c1 = choose|j: int| 0 <= j < self.pairs@.len() && self.pairs@[j].0 == k2;
                let c0 = choose|j: int|
                    0 <= j < old(self).pairs@.len() && old(self).pairs@[j].0 == k2;
                assert(c1 == i && c0 == i);
            }
        }
    }
}

/// Map from a type-identity key to a dense component id, used by the registry
/// for deduplicating registrations. Keys are unique.
#[derive(Debug)]
pub struct KeyMap {
    pub pairs: Vec<(u64, u32)>,
}

impl KeyMap {
    pub open spec fn wf(self) -> bool {
        forall|i: int, j: int|
            0 <= i < j < self.pairs@.len() ==> self.pairs@[i].0 != self.pairs@[j].0
    }

    pub open spec fn spec_contains(self, k: u64) -> bool {
        exists|i: int| 0 <= i < self.pairs@.len() && self.pairs@[i].0 == k
    }

    pub open spec fn spec_get(self, k: u64) -> u32 {
        self.pairs@[choose|i: int| 0 <= i < self.pairs@.len() && self.pairs@[i].0 == k].1
    }

    pub fn new() -> (r: Self)
        ensures
            r.wf(),
            forall|k: u64| !r.spec_contains(k),
    {
        KeyMap { pairs: Vec::new() }
    }

    pub fn get(&self, k: u64) -> (r: Option<u32>)
        requires
            self.wf(),
        ensures
            r == if self.spec_contains(k) {
                Some(self.spec_get(k))
            } else {
                None::<u32>
            },
    {
        let n = self.pairs.len();
        let mut i: usize = 0;
        while i < n
            invariant
                n == self.pairs@.len(),
                i <= n,
                self.wf(),
                forall|j: int| 0 <= j < i ==> self.pairs@[j].0 != k,
            decreases n - i,
        {
            if self.pairs[i].0 == k {
                proof {
                    let c = choose|j: int| 0 <= j < self.pairs@.len() && self.pairs@[j].0 == k;
                    assert(c == i);
                }
                return Some(self.pairs[i].1);
            }
            i += 1;
        }
        None
    }

    pub fn insert(&mut self, k: u64, v: u32)
        requires
            old(self).wf(),
            !old(self).spec_contains(k),
        ensures
            final(self).wf(),
            final(self).spec_contains(k),
            final(self).spec_get(k) == v,
            forall|k2: u64|
                k2 != k ==> final(self).spec_contains(k2) == old(self).spec_contains(k2),
            forall|k2: u64|
                k2 != k && old(self).spec_contains(k2) ==> final(self).spec_get(k2) == old(self).spec_get(k2),
    {
        let ghost n = self.pairs@.len() as int;
        self.pairs.push((k, v));
        proof {
            assert forall|i: int, j: int|
                0 <= i < j < self.pairs@.len() implies self.pairs@[i].0 != self.pairs@[j].0 by {
                if j == n {
                    assert(self.pairs@[i] == old(self).pairs@[i]);
                }
            }
            assert(self.pairs@[n].0 == k);
            let c = choose|i: int| 0 <= i < self.pairs@.len() && self.pairs@[i].0 == k;
            assert(c == n);
            assert forall|k2: u64| k2 != k && final(self).spec_contains(k2) implies old(self).spec_contains(k2) by {
                let i = choose|i: int| 0 <= i < self.pairs@.len() && self.pairs@[i].0 == k2;
                assert(i < n);
                assert(old(self).pairs@[i].0 == k2);
            }
            assert forall|k2: u64| k2 != k && old(self).spec_contains(k2) implies final(self).spec_contains(k2) && final(self).spec_get(k2) == old(self).spec_get(k2) by {
                let i = choose|i: int|
                    0 <= i < old(self).pairs@.len() && old(self).pairs@[i].0 == k2;
                assert(self.pairs@[i].0 == k2);
                let c1 = choose|j: int| 0 <= j < self.pairs@.len() && self.pairs@[j].0 == k2;
                let c0 = choose|j: int|
                    0 <= j < old(self).pairs@.len() && old(self).pairs@[j].0 == k2;
                assert(c1 == i && c0 == i);
            }
        }
    }
}

/// Set of system ids kept strictly ascending: the archetype's refresh
/// listeners. Iteration order is the ascending id order, which stands in for
/// the original set order and stays stable across insertions.
#[derive(Debug)]
pub struct ListenerSet {
    pub ids: Vec<u32>,
}

impl ListenerSet {
    pub open spec fn wf(self) -> bool {
        forall|i: int, j: int| 0 <= i < j < self.ids@.len() ==> self.ids@[i] < self.ids@[j]
    }

    /// The listeners in iteration order.
    pub open spec fn view(self) -> Seq<u32> {
        self.ids@
    }

    pub open spec fn spec_contains(self, k: u32) -> bool {
        self.ids@.contains(k)
    }

    pub fn new() -> (r: Self)
        ensures
            r.wf(),
            r.view() == Seq::<u32>::empty(),
    {
        ListenerSet { ids: Vec::new() }
    }

    pub fn ids(&self) -> (r: &Vec<u32>)
        ensures
            r@ == self.view(),
    {
        &self.ids
    }

    pub fn insert(&mut self, k: u32)
        requires
            old(self).wf(),
        ensures
            final(self).wf(),
            forall|x: u32|
                final(self).spec_contains(x) <==> (old(self).spec_contains(x) || x == k),
            old(self).spec_contains(k) ==> *final(self) == *old(self),
    {
        let n = self.ids.len();
        let mut i: usize = 0;
        while i < n && self.ids[i] < k
            invariant
                n == self.ids@.len(),
                i <= n,
                self.wf(),
                forall|j: int| 0 <= j < i ==> self.ids@[j] < k,
            decreases n - i,
        {
            i += 1;
        }
        if i < n && self.ids[i] == k {
            proof {
                assert(self.ids@[i as int] == k);
            }
            return ;
        }
        self.ids.insert(i, k);
        proof {
            let s0 = old(self).ids@;
            let s1 = self.ids@;
            assert forall|a: int| 0 <= a < s1.len() implies s1[a] == (if a < i {
                s0[a]
            } else if a == i {
                k
            } else {
                s0[a - 1]
            }) by {}
            assert forall|a: int, b: int| 0 <= a < b < s1.len() implies s1[a] < s1[b] by {
                if a == i {
                    assert(s1[b] == s0[b - 1] && b - 1 >= i);
                    assert(s0[b - 1] >= k && s0[b - 1] != k);
                } else if b == i {
                    assert(s1[a] == s0[a] && a < i);
                } else if a < i && b > i {
                    assert(s1[a] == s0[a] && s1[b] == s0[b - 1] && a <= b - 1);
                    if a < b - 1 {
                        assert(s0[a] < s0[b - 1]);
                    } else {
                        assert(s0[a] < k && k < s0[b - 1] || s0[a] < k && s0[b - 1] >= k);
                    }
                }
            }
            assert forall|x: u32| final(self).spec_contains(x) implies (old(self).spec_contains(x)
                || x == k) by {
                let j = choose|j: int| 0 <= j < s1.len() && s1[j] == x;
                if j < i {
                    assert(s0[j] == x);
                } else if j > i {
                    assert(s0[j - 1] == x);
                }
            }
            assert forall|x: u32| old(self).spec_contains(x) implies final(self).spec_contains(
                x,
            ) by {
                let j = choose|j: int| 0 <= j < s0.len() && s0[j] == x;
                if j < i {
                    assert(s1[j] == x);
                } else {
                    assert(s1[j + 1] == x);
                }
            }
            assert(s1[i as int] == k);
            assert(final(self).spec_contains(k));
        }
    }
}

} // verus!
