//! The column store: a growable, type-erased vector of fixed-layout
//! elements, held as raw bytes. Supports pushing a value, swap-removal with
//! a destructor run, and ownership transfer of one element into another
//! column of the same layout (no destructor run).
//!
//! Destructor calls cannot be carried as data here, so the column counts
//! them instead: the ghost counters record how many elements were pushed,
//! destroyed, and moved between columns, and the well-formedness invariant
//! balances them against the live length.

use vstd::prelude::*;

use crate::component::ComponentIdx;
use crate::component::ComponentLayout;

verus! {

/// Ghost accounting of one column's element lifecycle.
pub ghost struct ColumnCounts {
    /// Elements pushed from a caller-supplied value.
    pub pushed: int,
    /// Elements whose destructor ran here (swap-removal).
    pub dropped: int,
    /// Elements moved in from another column (no destructor involved).
    pub moved_in: int,
    /// Elements moved out to another column (no destructor run).
    pub moved_out: int,
}

/// A sequence with element `i` swap-removed: the last element takes its
/// place and the length shrinks by one.
pub open spec fn swap_removed<T>(s: Seq<T>, i: int) -> Seq<T> {
    s.update(i, s.last()).drop_last()
}

/// One column of component data within one archetype.
pub struct Column {
    /// The component stored in this column.
    pub component_idx: ComponentIdx,
    /// Size in bytes of one element.
    pub elem_size: usize,
    /// Alignment of one element.
    pub elem_align: usize,
    /// Whether elements carry a destructor.
    pub has_drop: bool,
    /// Number of live elements.
    pub len: usize,
    /// Element capacity before the buffer must grow. Zero-sized elements
    /// never reallocate: their capacity is unbounded from the start.
    pub cap: usize,
    /// The element bytes, contiguous: element `i` occupies
    /// `i * elem_size .. (i + 1) * elem_size`.
    pub bytes: Vec<u8>,
    /// Lifecycle accounting.
    pub counts: Ghost<ColumnCounts>,
}

impl Column {
    /// The elements as byte sequences.
    pub open spec fn elems(self) -> Seq<Seq<u8>> {
        Seq::new(
            self.len as nat,
            |i: int|
                self.bytes@.subrange(
                    i * self.elem_size as int,
                    i * self.elem_size as int + self.elem_size as int,
                ),
        )
    }

    pub open spec fn wf(self) -> bool {
        &&& self.bytes@.len() == self.len * self.elem_size as int
        &&& self.len <= self.cap
        &&& self.elem_size == 0 ==> self.cap == usize::MAX
        &&& self.counts@.pushed >= 0 && self.counts@.dropped >= 0 && self.counts@.moved_in >= 0
            && self.counts@.moved_out >= 0
        &&& self.counts@.pushed + self.counts@.moved_in == self.len + self.counts@.dropped
            + self.counts@.moved_out
    }

    /// The capacity after an operation that appends one element: doubling
    /// growth, starting at one.
    pub open spec fn grown_cap(self) -> int {
        if self.len == self.cap {
            if self.cap == 0 {
                1
            } else if self.cap > usize::MAX / 2 {
                usize::MAX as int
            } else {
                2 * self.cap
            }
        } else {
            self.cap as int
        }
    }

    /// `c1` is `c0` with the value `v` appended: same identity and layout,
    /// one more element, capacity grown if the append filled it. `by_move`
    /// tells whether the element was moved in from another column rather
    /// than pushed from a caller-supplied value.
    pub open spec fn is_pushed(c0: Column, c1: Column, v: Seq<u8>, by_move: bool) -> bool {
        &&& c1.component_idx == c0.component_idx
        &&& c1.elem_size == c0.elem_size
        &&& c1.elem_align == c0.elem_align
        &&& c1.has_drop == c0.has_drop
        &&& c1.cap == c0.grown_cap()
        &&& c1.len == c0.len + 1
        &&& c1.elems() == c0.elems().push(v)
        &&& c1.counts@.pushed == c0.counts@.pushed + (if by_move { 0int } else { 1int })
        &&& c1.counts@.moved_in == c0.counts@.moved_in + (if by_move { 1int } else { 0int })
        &&& c1.counts@.dropped == c0.counts@.dropped
        &&& c1.counts@.moved_out == c0.counts@.moved_out
    }

    /// `c1` is `c0` with element `i` swap-removed. `with_drop` tells whether
    /// the element's destructor ran (removal) or ownership left by transfer.
    pub open spec fn is_removed_at(c0: Column, c1: Column, i: int, with_drop: bool) -> bool {
        &&& c1.component_idx == c0.component_idx
        &&& c1.elem_size == c0.elem_size
        &&& c1.elem_align == c0.elem_align
        &&& c1.has_drop == c0.has_drop
        &&& c1.cap == c0.cap
        &&& c1.len == c0.len - 1
        &&& c1.elems() == swap_removed(c0.elems(), i)
        &&& c1.counts@.pushed == c0.counts@.pushed
        &&& c1.counts@.moved_in == c0.counts@.moved_in
        &&& c1.counts@.dropped == c0.counts@.dropped + (if with_drop { 1int } else { 0int })
        &&& c1.counts@.moved_out == c0.counts@.moved_out + (if with_drop { 0int } else { 1int })
    }

    /// An empty column for elements of the given layout.
    pub fn new(component_idx: ComponentIdx, layout: ComponentLayout, has_drop: bool) -> (r: Column)
        ensures
            r.wf(),
            r.component_idx == component_idx,
            r.elem_size == layout.size,
            r.elem_align == layout.align,
            r.has_drop == has_drop,
            r.len == 0,
            r.cap == if layout.size == 0 { usize::MAX } else { 0usize },
            r.elems() == Seq::<Seq<u8>>::empty(),
            r.counts@ == (ColumnCounts { pushed: 0, dropped: 0, moved_in: 0, moved_out: 0 }),
    {
        let cap: usize = if layout.size == 0 {
            usize::MAX
        } else {
            0
        };
        let r = Column {
            component_idx,
            elem_size: layout.size,
            elem_align: layout.align,
            has_drop,
            len: 0,
            cap,
            bytes: Vec::new(),
            counts: Ghost(ColumnCounts { pushed: 0, dropped: 0, moved_in: 0, moved_out: 0 }),
        };
        proof {
            assert(r.elems() =~= Seq::<Seq<u8>>::empty());
        }
        r
    }

    /// The raw element bytes.
    pub fn data(&self) -> (r: &Vec<u8>)
        ensures
            r@ == self.bytes@,
    {
        &self.bytes
    }

    pub fn component_index(&self) -> (r: ComponentIdx)
        ensures
            r == self.component_idx,
    {
        self.component_idx
    }

    /// The number of live elements.
    pub fn len(&self) -> (r: usize)
        ensures
            r == self.len,
    {
        self.len
    }

    pub fn elem_layout(&self) -> (r: ComponentLayout)
        ensures
            r == (ComponentLayout { size: self.elem_size, align: self.elem_align }),
    {
        ComponentLayout { size: self.elem_size, align: self.elem_align }
    }

    pub fn capacity(&self) -> (r: usize)
        ensures
            r == self.cap,
    {
        self.cap
    }

    /// Grows the capacity if the column is full.
    fn grow(&mut self)
        ensures
            *final(self) == (Column { cap: final(self).cap, ..*old(self) }),
            final(self).cap == old(self).grown_cap(),
    {
        if self.len == self.cap {
            self.cap = if self.cap == 0 {
                1
            } else if self.cap > usize::MAX / 2 {
                usize::MAX
            } else {
                2 * self.cap
            };
        }
    }

    /// Appends the bytes of one element, taken from `src` starting at
    /// `from * elem_size`.
    fn append_elem_bytes(&mut self, src: &Vec<u8>, from: usize)
        requires
            old(self).bytes@.len() + old(self).elem_size <= usize::MAX,
            (from + 1) * old(self).elem_size as int <= src@.len(),
        ensures
            *final(self) == (Column { bytes: final(self).bytes, ..*old(self) }),
            final(self).bytes@ == old(self).bytes@ + src@.subrange(
                from * old(self).elem_size as int,
                (from + 1) * old(self).elem_size as int,
            ),
    {
        let s = self.elem_size;
        let sn = src.len();
        proof {
            assert((from + 1) * s as int == from * s as int + s) by (nonlinear_arith);
        }
        let base = from * s;
        proof {
            assert(self.bytes@ =~= old(self).bytes@ + src@.subrange(base as int, base as int));
        }
        let mut j: usize = 0;
        while j < s
            invariant
                j <= s,
                s == self.elem_size,
                base == from * s,
                base + s <= sn,
                sn == src@.len(),
                old(self).bytes@.len() + s <= usize::MAX,
                *self == (Column { bytes: self.bytes, ..*old(self) }),
                self.bytes@ == old(self).bytes@ + src@.subrange(base as int, base + j),
            decreases s - j,
        {
            let b = src[base + j];
            self.bytes.push(b);
            proof {
                assert(self.bytes@ =~= old(self).bytes@ + src@.subrange(base as int, base + j + 1));
            }
            j += 1;
        }
    }

    /// Pushes one caller-supplied element value onto the column.
    pub fn push(&mut self, v: &Vec<u8>)
        requires
            old(self).wf(),
            v@.len() == old(self).elem_size,
            old(self).len < usize::MAX,
            old(self).bytes@.len() + old(self).elem_size <= usize::MAX,
        ensures
            final(self).wf(),
            Column::is_pushed(*old(self), *final(self), v@, false),
    {
        self.grow();
        let ghost mid = *self;
        self.append_elem_bytes(v, 0);
        self.len = self.len + 1;
        self.counts = Ghost(
            ColumnCounts { pushed: self.counts@.pushed + 1, ..self.counts@ },
        );
        proof {
            let s = old(self).elem_size as int;
            assert(v@.subrange(0, s) =~= v@);
            assert(mid.elems() =~~= old(self).elems());
            let ghost l0 = old(self).len as int;
            assert((l0 + 1) * s == l0 * s + s) by (nonlinear_arith);
            lemma_elems_after_append(mid, *self, old(self).elems(), v@);
        }
    }

    /// Moves element `i` out of this column onto the end of `other`: a byte
    /// move followed by a swap-removal that runs no destructor, since
    /// ownership transferred. Both columns must share the element layout.
    pub fn transfer_elem(&mut self, other: &mut Column, i: usize)
        requires
            old(self).wf(),
            old(other).wf(),
            i < old(self).len,
            old(other).elem_size == old(self).elem_size,
            old(other).len < usize::MAX,
            old(other).bytes@.len() + old(other).elem_size <= usize::MAX,
        ensures
            final(self).wf(),
            final(other).wf(),
            Column::is_removed_at(*old(self), *final(self), i as int, false),
            Column::is_pushed(*old(other), *final(other), old(self).elems()[i as int], true),
    {
        proof {
            lemma_mul_le(i as int + 1, old(self).len as int, old(self).elem_size as int);
            let ghost s0 = old(self).elem_size as int;
            assert((i + 1) * s0 == i * s0 + s0) by (nonlinear_arith);
        }
        other.grow();
        let ghost mid = *other;
        other.append_elem_bytes(&self.bytes, i);
        other.len = other.len + 1;
        other.counts = Ghost(
            ColumnCounts { moved_in: other.counts@.moved_in + 1, ..other.counts@ },
        );
        proof {
            let s = old(self).elem_size as int;
            let v = old(self).elems()[i as int];
            assert(self.bytes@.subrange(i * s, (i + 1) * s) =~= v);
            assert(mid.elems() =~~= old(other).elems());
            let ghost l0 = old(other).len as int;
            assert((l0 + 1) * s == l0 * s + s) by (nonlinear_arith);
            lemma_elems_after_append(mid, *other, old(other).elems(), v);
        }
        self.remove_at(i);
        self.counts = Ghost(
            ColumnCounts { moved_out: self.counts@.moved_out + 1, ..self.counts@ },
        );
    }

    /// Swap-removes element `i`, running its destructor: the last element's
    /// bytes take its place and the length shrinks by one.
    pub fn swap_remove(&mut self, i: usize)
        requires
            old(self).wf(),
            i < old(self).len,
        ensures
            final(self).wf(),
            Column::is_removed_at(*old(self), *final(self), i as int, true),
    {
        self.remove_at(i);
        self.counts = Ghost(
            ColumnCounts { dropped: self.counts@.dropped + 1, ..self.counts@ },
        );
    }

    /// The byte move of a swap-removal, with no lifecycle accounting.
    fn remove_at(&mut self, i: usize)
        requires
            old(self).wf(),
            i < old(self).len,
        ensures
            *final(self) == (Column {
                bytes: final(self).bytes,
                len: (old(self).len - 1) as usize,
                ..*old(self)
            }),
            final(self).bytes@.len() == final(self).len * final(self).elem_size as int,
            final(self).elems() == swap_removed(old(self).elems(), i as int),
            final(self).counts == old(self).counts,
    {
        let s = self.elem_size;
        let last = self.len - 1;
        let nb = self.bytes.len();
        proof {
            lemma_mul_le(i as int + 1, self.len as int, s as int);
            lemma_mul_le(last as int + 1, self.len as int, s as int);
            assert((i + 1) * s as int == i * s as int + s) by (nonlinear_arith);
            assert((last + 1) * s as int == last * s as int + s) by (nonlinear_arith);
        }
        let ibase = i * s;
        let lbase = last * s;
        let mut j: usize = 0;
        while j < s
            invariant
                j <= s,
                s == self.elem_size,
                i < self.len,
                last == self.len - 1,
                ibase == i * s,
                lbase == last * s,
                ibase + s <= nb,
                lbase + s <= nb,
                nb == self.bytes@.len(),
                *self == (Column { bytes: self.bytes, ..*old(self) }),
                self.bytes@.len() == old(self).bytes@.len(),
                forall|m: int|
                    ibase <= m < ibase + j ==> self.bytes@[m] == old(self).bytes@[lbase + (m
                        - ibase)],
                forall|m: int|
                    0 <= m < self.bytes@.len() && !(ibase <= m < ibase + j) ==> self.bytes@[m]
                        == old(self).bytes@[m],
            decreases s - j,
        {
            let b = self.bytes[lbase + j];
            proof {
                assert((i + 1) * s as int == i * s as int + s) by (nonlinear_arith);
                if i < last {
                    assert(lbase >= ibase + s) by {
                        lemma_mul_le(i as int + 1, last as int, s as int);
                        assert((i + 1) * s as int == i * s as int + s) by (nonlinear_arith);
                    }
                }
                assert(self.bytes@[lbase + j] == old(self).bytes@[lbase + j]);
            }
            self.bytes[ibase + j] = b;
            j += 1;
        }
        self.bytes.truncate(lbase);
        self.len = last;
        proof {
            let e0 = old(self).elems();
            let e1 = self.elems();
            assert forall|k: int| 0 <= k < last implies e1[k] =~= swap_removed(e0, i as int)[k] by {
                lemma_mul_le(k + 1, last as int, s as int);
                assert((k + 1) * s as int == k * s as int + s) by (nonlinear_arith);
                assert((i + 1) * s as int == i * s as int + s) by (nonlinear_arith);
                if k == i {
                    lemma_mul_le(i as int + 1, last as int, s as int);
                    assert forall|m: int| 0 <= m < s implies e1[k][m] == e0[last as int][m] by {
                        assert(self.bytes@[ibase + m] == old(self).bytes@[lbase + m]);
                    }
                } else {
                    assert forall|m: int| 0 <= m < s implies e1[k][m] == e0[k][m] by {
                        assert(k * s + m < lbase) by {
                            lemma_mul_le(k + 1, last as int, s as int);
                            assert((k + 1) * s as int == k * s as int + s) by (nonlinear_arith);
                        }
                        assert(k * s + m < ibase || k * s + m >= ibase + s) by {
                            assert((k + 1) * s as int == k * s as int + s) by (nonlinear_arith);
                            assert((i + 1) * s as int == i * s as int + s) by (nonlinear_arith);
                            if k < i {
                                lemma_mul_le(k + 1, i as int, s as int);
                            } else {
                                lemma_mul_le(i + 1, k as int, s as int);
                            }
                        }
                        assert(self.bytes@[k * s + m] == old(self).bytes@[k * s + m]);
                    }
                }
            }
            assert(self.elems() =~~= swap_removed(old(self).elems(), i as int));
        }
    }
}

/// Drop accounting: a well-formed column's live length is exactly what
/// was pushed or moved in, less what was destroyed or moved out.
pub proof fn lemma_drop_accounting(c: Column)
    requires
        c.wf(),
    ensures
        c.len == c.counts@.pushed + c.counts@.moved_in - c.counts@.dropped - c.counts@.moved_out,
{
}

/// Multiplication keeps order: `a <= b` gives `a * c <= b * c` for a
/// nonnegative factor.
pub proof fn lemma_mul_le(a: int, b: int, c: int)
    requires
        a <= b,
        c >= 0,
    ensures
        a * c <= b * c,
{
    assert(a * c <= b * c) by (nonlinear_arith)
        requires
            a <= b,
            c >= 0,
    ;
}

/// After appending one element's bytes, the element view is the old view
/// with that element pushed.
proof fn lemma_elems_after_append(c0: Column, c1: Column, e0: Seq<Seq<u8>>, v: Seq<u8>)
    requires
        c1.elem_size == c0.elem_size,
        c1.len == c0.len + 1,
        c0.bytes@.len() == c0.len * c0.elem_size as int,
        v.len() == c0.elem_size,
        c1.bytes@ == c0.bytes@ + v,
        e0 == c0.elems(),
    ensures
        c1.elems() == e0.push(v),
{
    let s = c0.elem_size as int;
    let e1 = c1.elems();
    assert forall|k: int| 0 <= k < c1.len implies e1[k] =~= e0.push(v)[k] by {
        lemma_mul_le(k + 1, c1.len as int, s);
        assert((k + 1) * s == k * s + s) by (nonlinear_arith);
        if k < c0.len {
            lemma_mul_le(k + 1, c0.len as int, s);
            assert forall|m: int| 0 <= m < s implies e1[k][m] == e0[k][m] by {
                assert(k * s + m < c0.bytes@.len());
                assert(c1.bytes@[k * s + m] == c0.bytes@[k * s + m]);
            }
        } else {
            assert(k == c0.len);
            assert forall|m: int| 0 <= m < s implies e1[k][m] == v[m] by {
                assert(k * s == c0.bytes@.len()) by (nonlinear_arith)
                    requires
                        k == c0.len,
                        c0.bytes@.len() == c0.len * s,
                ;
                assert(c1.bytes@[k * s + m] == v[m]);
            }
        }
    }
    assert(c1.elems() =~~= e0.push(v));
}

} // verus!
