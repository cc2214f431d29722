//! The symbolic shape tracker: an ordered record of axis sizes together with
//! the permutation, broadcast ("fake"), slice and padding history applied to
//! a tensor's layout, kept without materializing any buffer.

use vstd::prelude::*;

verus! {

/// Maximum number of axes a tracker may hold.
pub const MAX_DIMS: usize = 10;

/// Sentinel for an unset upper slice bound.
pub const SLICE_UPPER: usize = 2147483647;

/// A single axis length: either a known size or a named symbolic unknown.
#[derive(Clone, Copy, Debug, PartialEq, Eq, Structural)]
pub enum Dim {
    Known(usize),
    Unknown(char),
}

impl Dim {
    /// The concrete size of this axis, if it is known.
    pub fn to_usize(self) -> (r: Option<usize>)
        ensures
            r == (match self {
                Dim::Known(n) => Some(n),
                Dim::Unknown(_) => None::<usize>,
            }),
    {
        match self {
            Dim::Known(n) => Some(n),
            Dim::Unknown(_) => None,
        }
    }
}

impl Default for Dim {
    /// The default axis size is the distinguished unresolved symbol `'-'`.
    fn default() -> (r: Self)
        ensures
            r == Dim::Unknown('-'),
    {
        Dim::Unknown('-')
    }
}

/// Ordered per-axis layout record. The five vectors are parallel: entry `i`
/// of each describes storage axis `i`, and `indexes` maps each logical axis
/// position to its storage slot.
#[derive(Debug)]
pub struct ShapeTracker {
    pub dims: Vec<Dim>,
    pub indexes: Vec<usize>,
    pub fake: Vec<bool>,
    pub slices: Vec<(usize, usize)>,
    pub padding: Vec<(usize, usize)>,
}

impl ShapeTracker {
    /// All five parallel vectors have the same length, bounded by `MAX_DIMS`,
    /// `indexes` is a permutation of the storage slots, and every recorded
    /// size, bound and pad amount fits under the slice sentinel.
    pub open spec fn wf(self) -> bool {
        &&& self.dims@.len() <= MAX_DIMS
        &&& self.indexes@.len() == self.dims@.len()
        &&& self.fake@.len() == self.dims@.len()
        &&& self.slices@.len() == self.dims@.len()
        &&& self.padding@.len() == self.dims@.len()
        &&& forall|i: int| 0 <= i < self.indexes@.len() ==> self.indexes@[i] < self.dims@.len()
        &&& forall|i: int, j: int|
            0 <= i < j < self.indexes@.len() ==> self.indexes@[i] != self.indexes@[j]
        &&& forall|i: int| 0 <= i < self.dims@.len() ==> #[trigger] dim_bounded(self.dims@[i])
        &&& forall|i: int|
            0 <= i < self.dims@.len()
                ==> (#[trigger] self.slices@[i]).0 <= self.slices@[i].1 <= SLICE_UPPER
        &&& forall|i: int|
            0 <= i < self.dims@.len()
                ==> (#[trigger] self.padding@[i]).0 <= SLICE_UPPER && self.padding@[i].1
                <= SLICE_UPPER
    }

    /// The number of axes.
    pub open spec fn rank(self) -> nat {
        self.dims@.len()
    }

    /// Build an identity-ordered tracker: axis `i` is stored in slot `i`,
    /// nothing is fake, sliced or padded.
    pub fn new(dims: &[Dim]) -> (r: Self)
        requires
            dims@.len() <= MAX_DIMS,
            forall|i: int| 0 <= i < dims@.len() ==> #[trigger] dim_bounded(dims@[i]),
        ensures
            r.wf(),
            r.dims@ == dims@,
            r.indexes@ == Seq::new(dims@.len(), |i: int| i as usize),
            r.fake@ == Seq::new(dims@.len(), |i: int| false),
            r.slices@ == Seq::new(dims@.len(), |i: int| (0usize, SLICE_UPPER)),
            r.padding@ == Seq::new(dims@.len(), |i: int| (0usize, 0usize)),
    {
        let mut s = ShapeTracker {
            dims: Vec::new(),
            indexes: Vec::new(),
            fake: Vec::new(),
            slices: Vec::new(),
            padding: Vec::new(),
        };
        let mut i: usize = 0;
        while i < dims.len()
            invariant
                i <= dims@.len(),
                dims@.len() <= MAX_DIMS,
                forall|k: int| 0 <= k < dims@.len() ==> #[trigger] dim_bounded(dims@[k]),
                s.dims@ == dims@.take(i as int),
                s.indexes@ == Seq::new(i as nat, |k: int| k as usize),
                s.fake@ == Seq::new(i as nat, |k: int| false),
                s.slices@ == Seq::new(i as nat, |k: int| (0usize, SLICE_UPPER)),
                s.padding@ == Seq::new(i as nat, |k: int| (0usize, 0usize)),
            decreases dims@.len() - i,
        {
            s.dims.push(dims[i]);
            s.indexes.push(i);
            s.fake.push(false);
            s.slices.push((0, SLICE_UPPER));
            s.padding.push((0, 0));
            i = i + 1;
            proof {
                assert(s.dims@ =~= dims@.take(i as int));
                assert(s.indexes@ =~= Seq::new(i as nat, |k: int| k as usize));
                assert(s.fake@ =~= Seq::new(i as nat, |k: int| false));
                assert(s.slices@ =~= Seq::new(i as nat, |k: int| (0usize, SLICE_UPPER)));
                assert(s.padding@ =~= Seq::new(i as nat, |k: int| (0usize, 0usize)));
            }
        }
        proof {
            assert(s.dims@ =~= dims@);
        }
        s
    }

    /// Build a tracker like `new`, but with every axis marked fake, for
    /// broadcasting a value across axes that hold no physical storage.
    pub fn fake(dims: &[Dim]) -> (r: Self)
        requires
            dims@.len() <= MAX_DIMS,
            forall|i: int| 0 <= i < dims@.len() ==> #[trigger] dim_bounded(dims@[i]),
        ensures
            r.wf(),
            r.dims@ == dims@,
            r.indexes@ == Seq::new(dims@.len(), |i: int| i as usize),
            r.fake@ == Seq::new(dims@.len(), |i: int| true),
            r.slices@ == Seq::new(dims@.len(), |i: int| (0usize, SLICE_UPPER)),
            r.padding@ == Seq::new(dims@.len(), |i: int| (0usize, 0usize)),
    {
        let mut s = Self::new(dims);
        let mut i: usize = 0;
        while i < s.fake.len()
            invariant
                i <= s.fake@.len(),
                s.fake@.len() == dims@.len(),
                s.dims@ == dims@,
                s.indexes@ == Seq::new(dims@.len(), |k: int| k as usize),
                s.slices@ == Seq::new(dims@.len(), |k: int| (0usize, SLICE_UPPER)),
                s.padding@ == Seq::new(dims@.len(), |k: int| (0usize, 0usize)),
                forall|k: int| 0 <= k < i ==> s.fake@[k] == true,
                forall|k: int| i <= k < s.fake@.len() ==> s.fake@[k] == false,
            decreases s.fake@.len() - i,
        {
            s.fake.set(i, true);
            i = i + 1;
        }
        proof {
            assert(s.fake@ =~= Seq::new(dims@.len(), |i: int| true));
        }
        s
    }

    /// The number of dimensions.
    pub fn len(&self) -> (r: usize)
        ensures
            r == self.rank(),
    {
        self.dims.len()
    }

    pub fn is_empty(&self) -> (r: bool)
        ensures
            r == (self.rank() == 0),
    {
        self.dims.len() == 0
    }

    pub open spec fn spec_is_contiguous(self) -> bool {
        forall|i: int| 0 <= i < self.indexes@.len() ==> self.indexes@[i] == i
    }

    /// True iff the logical order equals the storage order.
    pub fn is_contiguous(&self) -> (r: bool)
        ensures
            r == self.spec_is_contiguous(),
    {
        let mut i: usize = 0;
        while i < self.indexes.len()
            invariant
                i <= self.indexes@.len(),
                forall|k: int| 0 <= k < i ==> self.indexes@[k] == k,
            decreases self.indexes@.len() - i,
        {
            if self.indexes[i] != i {
                return false;
            }
            i = i + 1;
        }
        true
    }
}

impl ShapeTracker {
    /// The logical shape: axis sizes in logical (permuted) order.
    pub fn shape(&self) -> (r: Vec<Dim>)
        requires
            self.wf(),
        ensures
            r@ == self.spec_shape(),
    {
        let mut r: Vec<Dim> = Vec::new();
        let mut i: usize = 0;
        while i < self.indexes.len()
            invariant
                self.wf(),
                i <= self.indexes@.len(),
                r@ == self.spec_shape().take(i as int),
            decreases self.indexes@.len() - i,
        {
            r.push(self.dims[self.indexes[i]]);
            i = i + 1;
            proof {
                assert(r@ =~= self.spec_shape().take(i as int));
            }
        }
        proof {
            assert(r@ =~= self.spec_shape());
        }
        r
    }

    /// The logical shape as a sequence: logical axis `i` has the size stored
    /// in slot `indexes[i]`.
    pub open spec fn spec_shape(self) -> Seq<Dim> {
        Seq::new(self.indexes@.len(), |i: int| self.dims@[self.indexes@[i] as int])
    }

    /// Insert a new logical axis at position `axis` with the given size,
    /// marked fake: the storage slot is appended and only the logical order
    /// gains a position.
    pub fn expand(&mut self, axis: usize, dim: Dim)
        requires
            old(self).wf(),
            axis <= old(self).rank(),
            old(self).rank() < MAX_DIMS,
            dim_bounded(dim),
        ensures
            final(self).wf(),
            final(self).dims@ == old(self).dims@.push(dim),
            final(self).indexes@ == old(self).indexes@.insert(
                axis as int,
                old(self).dims@.len() as usize,
            ),
            final(self).fake@ == old(self).fake@.push(true),
            final(self).slices@ == old(self).slices@.push((0usize, SLICE_UPPER)),
            final(self).padding@ == old(self).padding@.push((0usize, 0usize)),
    {
        let slot = self.dims.len();
        self.indexes.insert(axis, slot);
        self.dims.push(dim);
        self.fake.push(true);
        self.slices.push((0, SLICE_UPPER));
        self.padding.push((0, 0));
    }

    /// Delete the logical axis at `axis`: its storage slot is removed from
    /// all five parallel vectors, and every index referring to a higher slot
    /// shifts down by one.
    pub fn remove_dim(&mut self, axis: usize)
        requires
            old(self).wf(),
            axis < old(self).rank(),
        ensures
            final(self).wf(),
            final(self).rank() == old(self).rank() - 1,
            final(self).dims@ == old(self).dims@.remove(old(self).indexes@[axis as int] as int),
            final(self).fake@ == old(self).fake@.remove(old(self).indexes@[axis as int] as int),
            final(self).slices@ == old(self).slices@.remove(old(self).indexes@[axis as int] as int),
            final(self).padding@ == old(self).padding@.remove(
                old(self).indexes@[axis as int] as int,
            ),
            final(self).indexes@ == old(self).indexes@.remove(axis as int).map_values(
                |v: usize|
                    if v > old(self).indexes@[axis as int] {
                        (v - 1) as usize
                    } else {
                        v
                    },
            ),
    {
        let slot = self.indexes.remove(axis);
        self.dims.remove(slot);
        self.fake.remove(slot);
        self.slices.remove(slot);
        self.padding.remove(slot);
        let ghost mid = self.indexes@;
        let mut i: usize = 0;
        while i < self.indexes.len()
            invariant
                axis < old(self).indexes@.len(),
                slot == old(self).indexes@[axis as int],
                mid == old(self).indexes@.remove(axis as int),
                self.dims@ == old(self).dims@.remove(slot as int),
                self.fake@ == old(self).fake@.remove(slot as int),
                self.slices@ == old(self).slices@.remove(slot as int),
                self.padding@ == old(self).padding@.remove(slot as int),
                forall|k: int|
                    0 <= k < mid.len() ==> mid[k] < old(self).dims@.len() && mid[k] != slot,
                slot < old(self).dims@.len(),
                i <= self.indexes@.len(),
                self.indexes@.len() == mid.len(),
                forall|k: int|
                    0 <= k < i ==> self.indexes@[k] == (if mid[k] > slot {
                        (mid[k] - 1) as usize
                    } else {
                        mid[k]
                    }),
                forall|k: int| i <= k < mid.len() ==> self.indexes@[k] == mid[k],
            decreases self.indexes@.len() - i,
        {
            if self.indexes[i] > slot {
                let v = self.indexes[i];
                self.indexes.set(i, v - 1);
            }
            i = i + 1;
        }
        proof {
            assert(self.indexes@ =~= mid.map_values(
                |v: usize|
                    if v > slot {
                        (v - 1) as usize
                    } else {
                        v
                    },
            ));
            assert forall|a: int, b: int|
                0 <= a < b < self.indexes@.len() implies self.indexes@[a] != self.indexes@[b] by {
                assert(mid[a] != mid[b]);
            }
        }
    }

    /// Reorder the logical axes: logical position `i` now refers to the
    /// storage slot previously referred to by logical position `axes[i]`.
    /// Storage is untouched.
    pub fn permute(&mut self, axes: &[usize])
        requires
            old(self).wf(),
            axes@.len() == old(self).rank(),
            forall|i: int| 0 <= i < axes@.len() ==> axes@[i] < axes@.len(),
            forall|i: int, j: int| 0 <= i < j < axes@.len() ==> axes@[i] != axes@[j],
        ensures
            final(self).wf(),
            final(self).dims@ == old(self).dims@,
            final(self).fake@ == old(self).fake@,
            final(self).slices@ == old(self).slices@,
            final(self).padding@ == old(self).padding@,
            final(self).indexes@ == Seq::new(
                axes@.len(),
                |i: int| old(self).indexes@[axes@[i] as int],
            ),
    {
        let mut new_indexes: Vec<usize> = Vec::new();
        let mut i: usize = 0;
        while i < axes.len()
            invariant
                self.wf(),
                self == old(self),
                axes@.len() == self.rank(),
                forall|k: int| 0 <= k < axes@.len() ==> axes@[k] < axes@.len(),
                i <= axes@.len(),
                new_indexes@ == Seq::new(i as nat, |k: int| self.indexes@[axes@[k] as int]),
            decreases axes@.len() - i,
        {
            new_indexes.push(self.indexes[axes[i]]);
            i = i + 1;
            proof {
                assert(new_indexes@ =~= Seq::new(
                    i as nat,
                    |k: int| self.indexes@[axes@[k] as int],
                ));
            }
        }
        self.indexes = new_indexes;
        proof {
            assert forall|a: int, b: int|
                0 <= a < b < self.indexes@.len() implies self.indexes@[a] != self.indexes@[b] by {
            }
        }
    }

    /// Write resolved sizes back into storage at logical positions.
    pub fn realize(self, dims: &[Dim]) -> (r: Self)
        requires
            self.wf(),
            dims@.len() == self.rank(),
            forall|i: int| 0 <= i < dims@.len() ==> #[trigger] dim_bounded(dims@[i]),
        ensures
            r.wf(),
            r.indexes@ == self.indexes@,
            r.fake@ == self.fake@,
            r.slices@ == self.slices@,
            r.padding@ == self.padding@,
            r.dims@.len() == self.dims@.len(),
            forall|i: int|
                0 <= i < dims@.len() ==> r.dims@[self.indexes@[i] as int] == dims@[i],
    {
        let mut s = self;
        let mut i: usize = 0;
        while i < s.indexes.len()
            invariant
                s.wf(),
                s.indexes@ == self.indexes@,
                s.fake@ == self.fake@,
                s.slices@ == self.slices@,
                s.padding@ == self.padding@,
                s.dims@.len() == self.dims@.len(),
                dims@.len() == s.indexes@.len(),
                forall|k: int| 0 <= k < dims@.len() ==> #[trigger] dim_bounded(dims@[k]),
                i <= dims@.len(),
                forall|k: int|
                    0 <= k < i ==> s.dims@[self.indexes@[k] as int] == dims@[k],
            decreases dims@.len() - i,
        {
            let slot = s.indexes[i];
            s.dims.set(slot, dims[i]);
            i = i + 1;
            proof {
                assert forall|k: int|
                    0 <= k < i implies s.dims@[self.indexes@[k] as int] == dims@[k] by {
                    if k < i - 1 {
                        assert(self.indexes@[k] != self.indexes@[i - 1]);
                    }
                }
            }
        }
        s
    }
}

impl ShapeTracker {
    /// New lower slice bound of an axis after slicing from `s`: slicing into
    /// a padded region consumes front padding first, and only the remainder
    /// narrows the bound.
    pub open spec fn sliced_lower(p0: usize, s0: usize, s: usize) -> int {
        s0 + s - imin(p0 as int, s as int)
    }

    /// New upper slice bound after slicing to `e`: the bound shifts down by
    /// the consumed front padding and narrows the existing bound; the
    /// sentinel for an unset bound stays as it is.
    pub open spec fn sliced_upper(p0: usize, s1: usize, s: usize, e: usize) -> int {
        imin(
            s1 as int,
            if e >= SLICE_UPPER {
                e as int
            } else {
                imax(e - imin(p0 as int, s as int), 0)
            },
        )
    }

    /// Narrow each logical axis to the bounds `slices[i] = (start, end)`.
    /// Slicing into a padded axis consumes the padding first.
    pub fn slice(&mut self, slices: &[(usize, usize)])
        requires
            old(self).wf(),
            slices@.len() <= old(self).rank(),
            forall|i: int|
                0 <= i < slices@.len() ==> Self::sliced_lower(
                    old(self).padding@[old(self).indexes@[i] as int].0,
                    old(self).slices@[old(self).indexes@[i] as int].0,
                    (#[trigger] slices@[i]).0,
                ) <= Self::sliced_upper(
                    old(self).padding@[old(self).indexes@[i] as int].0,
                    old(self).slices@[old(self).indexes@[i] as int].1,
                    slices@[i].0,
                    slices@[i].1,
                ),
        ensures
            final(self).wf(),
            final(self).dims@ == old(self).dims@,
            final(self).indexes@ == old(self).indexes@,
            final(self).fake@ == old(self).fake@,
            final(self).rank() == old(self).rank(),
            forall|i: int|
                0 <= i < slices@.len()
                    ==> {
                    let slot = old(self).indexes@[i] as int;
                    &&& final(self).slices@[slot].0 == Self::sliced_lower(
                        old(self).padding@[slot].0,
                        old(self).slices@[slot].0,
                        (#[trigger] slices@[i]).0,
                    )
                    &&& final(self).slices@[slot].1 == Self::sliced_upper(
                        old(self).padding@[slot].0,
                        old(self).slices@[slot].1,
                        slices@[i].0,
                        slices@[i].1,
                    )
                    &&& final(self).padding@[slot].0 == old(self).padding@[slot].0 - imin(
                        old(self).padding@[slot].0 as int,
                        slices@[i].0 as int,
                    )
                    &&& final(self).padding@[slot].1 == old(self).padding@[slot].1
                },
            forall|i: int| #![trigger old(self).indexes@[i]]
                slices@.len() <= i < old(self).rank() ==> final(self).slices@[old(
                    self,
                ).indexes@[i] as int] == old(self).slices@[old(self).indexes@[i] as int]
                    && final(self).padding@[old(self).indexes@[i] as int] == old(self).padding@[old(
                    self,
                ).indexes@[i] as int],
    {
        let mut i: usize = 0;
        while i < slices.len()
            invariant
                slices@.len() <= old(self).rank(),
                self.rank() == old(self).rank(),
                self.dims@ == old(self).dims@,
                self.indexes@ == old(self).indexes@,
                self.fake@ == old(self).fake@,
                self.slices@.len() == old(self).slices@.len(),
                self.padding@.len() == old(self).padding@.len(),
                old(self).wf(),
                i <= slices@.len(),
                forall|k: int|
                    0 <= k < slices@.len() ==> Self::sliced_lower(
                        old(self).padding@[old(self).indexes@[k] as int].0,
                        old(self).slices@[old(self).indexes@[k] as int].0,
                        (#[trigger] slices@[k]).0,
                    ) <= Self::sliced_upper(
                        old(self).padding@[old(self).indexes@[k] as int].0,
                        old(self).slices@[old(self).indexes@[k] as int].1,
                        slices@[k].0,
                        slices@[k].1,
                    ),
                forall|k: int| #![trigger old(self).indexes@[k]]
                    0 <= k < i ==> {
                        let slot = old(self).indexes@[k] as int;
                        &&& self.slices@[slot].0 == Self::sliced_lower(
                            old(self).padding@[slot].0,
                            old(self).slices@[slot].0,
                            slices@[k].0,
                        )
                        &&& self.slices@[slot].1 == Self::sliced_upper(
                            old(self).padding@[slot].0,
                            old(self).slices@[slot].1,
                            slices@[k].0,
                            slices@[k].1,
                        )
                        &&& self.padding@[slot].0 == old(self).padding@[slot].0 - imin(
                            old(self).padding@[slot].0 as int,
                            slices@[k].0 as int,
                        )
                        &&& self.padding@[slot].1 == old(self).padding@[slot].1
                    },
                forall|k: int| #![trigger old(self).indexes@[k]]
                    i <= k < old(self).rank()
                        ==> self.slices@[old(self).indexes@[k] as int] == old(self).slices@[old(
                        self,
                    ).indexes@[k] as int] && self.padding@[old(self).indexes@[k] as int] == old(
                        self,
                    ).padding@[old(self).indexes@[k] as int],
                forall|t: int|
                    0 <= t < self.slices@.len()
                        ==> (#[trigger] self.slices@[t]).0 <= self.slices@[t].1 <= SLICE_UPPER,
                forall|t: int|
                    0 <= t < self.padding@.len()
                        ==> (#[trigger] self.padding@[t]).0 <= SLICE_UPPER && self.padding@[t].1
                        <= SLICE_UPPER,
            decreases slices@.len() - i,
        {
            let (s, e) = slices[i];
            let slot = self.indexes[i];
            let p0 = self.padding[slot].0;
            let p1 = self.padding[slot].1;
            let consumed = if p0 < s {
                p0
            } else {
                s
            };
            proof {
                assert(Self::sliced_lower(
                    old(self).padding@[slot as int].0,
                    old(self).slices@[slot as int].0,
                    s,
                ) <= Self::sliced_upper(
                    old(self).padding@[slot as int].0,
                    old(self).slices@[slot as int].1,
                    s,
                    e,
                ));
            }
            self.padding.set(slot, (p0 - consumed, p1));
            let lo = self.slices[slot].0 + (s - consumed);
            let shifted_e = if e >= SLICE_UPPER {
                e
            } else if e >= consumed {
                e - consumed
            } else {
                0
            };
            let hi = if self.slices[slot].1 < shifted_e {
                self.slices[slot].1
            } else {
                shifted_e
            };
            self.slices.set(slot, (lo, hi));
            i = i + 1;
            proof {
                assert forall|k: int| #![trigger old(self).indexes@[k]] 0 <= k < i implies {
                    let sl = old(self).indexes@[k] as int;
                    &&& self.slices@[sl].0 == Self::sliced_lower(
                        old(self).padding@[sl].0,
                        old(self).slices@[sl].0,
                        slices@[k].0,
                    )
                    &&& self.slices@[sl].1 == Self::sliced_upper(
                        old(self).padding@[sl].0,
                        old(self).slices@[sl].1,
                        slices@[k].0,
                        slices@[k].1,
                    )
                    &&& self.padding@[sl].0 == old(self).padding@[sl].0 - imin(
                        old(self).padding@[sl].0 as int,
                        slices@[k].0 as int,
                    )
                    &&& self.padding@[sl].1 == old(self).padding@[sl].1
                } by {
                    if k < i - 1 {
                        assert(old(self).indexes@[k] != old(self).indexes@[i - 1]);
                    }
                }
                assert forall|k: int| #![trigger old(self).indexes@[k]]
                    i <= k < old(self).rank() implies self.slices@[old(self).indexes@[k] as int]
                    == old(self).slices@[old(self).indexes@[k] as int] && self.padding@[old(
                    self,
                ).indexes@[k] as int] == old(self).padding@[old(self).indexes@[k] as int] by {
                    assert(old(self).indexes@[k] != old(self).indexes@[i - 1]);
                }
            }
        }
    }

    /// Logically prepend `padding[i].0` and append `padding[i].1` positions
    /// to each logical axis. End padding may not be added to an axis whose
    /// upper slice bound is already finite.
    pub fn pad(&mut self, padding: &[(usize, usize)])
        requires
            old(self).wf(),
            padding@.len() <= old(self).rank(),
            forall|i: int|
                0 <= i < padding@.len()
                    ==> ((#[trigger] padding@[i]).1 != 0 ==> old(self).slices@[old(
                    self,
                ).indexes@[i] as int].1 == SLICE_UPPER),
            forall|i: int|
                0 <= i < padding@.len()
                    ==> old(self).padding@[old(self).indexes@[i] as int].0 + (
                #[trigger] padding@[i]).0 <= SLICE_UPPER && old(self).padding@[old(
                    self,
                ).indexes@[i] as int].1 + padding@[i].1 <= SLICE_UPPER,
        ensures
            final(self).wf(),
            final(self).dims@ == old(self).dims@,
            final(self).indexes@ == old(self).indexes@,
            final(self).fake@ == old(self).fake@,
            final(self).slices@ == old(self).slices@,
            final(self).rank() == old(self).rank(),
            forall|i: int|
                0 <= i < padding@.len()
                    ==> {
                    let slot = old(self).indexes@[i] as int;
                    final(self).padding@[slot].0 == old(self).padding@[slot].0 + (
                    #[trigger] padding@[i]).0 && final(self).padding@[slot].1 == old(
                        self,
                    ).padding@[slot].1 + padding@[i].1
                },
            forall|i: int| #![trigger old(self).indexes@[i]]
                padding@.len() <= i < old(self).rank() ==> final(self).padding@[old(
                    self,
                ).indexes@[i] as int] == old(self).padding@[old(self).indexes@[i] as int],
    {
        let mut i: usize = 0;
        while i < padding.len()
            invariant
                padding@.len() <= old(self).rank(),
                self.rank() == old(self).rank(),
                self.dims@ == old(self).dims@,
                self.indexes@ == old(self).indexes@,
                self.fake@ == old(self).fake@,
                self.slices@ == old(self).slices@,
                self.padding@.len() == old(self).padding@.len(),
                old(self).wf(),
                i <= padding@.len(),
                forall|k: int|
                    0 <= k < padding@.len()
                        ==> old(self).padding@[old(self).indexes@[k] as int].0 + (
                    #[trigger] padding@[k]).0 <= SLICE_UPPER && old(self).padding@[old(
                        self,
                    ).indexes@[k] as int].1 + padding@[k].1 <= SLICE_UPPER,
                forall|k: int| #![trigger old(self).indexes@[k]]
                    0 <= k < i ==> {
                        let slot = old(self).indexes@[k] as int;
                        self.padding@[slot].0 == old(self).padding@[slot].0 + (
                        padding@[k]).0 && self.padding@[slot].1 == old(self).padding@[slot].1
                            + padding@[k].1
                    },
                forall|k: int| #![trigger old(self).indexes@[k]]
                    i <= k < old(self).rank()
                        ==> self.padding@[old(self).indexes@[k] as int] == old(self).padding@[old(
                        self,
                    ).indexes@[k] as int],
                forall|t: int|
                    0 <= t < self.padding@.len()
                        ==> (#[trigger] self.padding@[t]).0 <= SLICE_UPPER && self.padding@[t].1
                        <= SLICE_UPPER,
            decreases padding@.len() - i,
        {
            let (s, e) = padding[i];
            let slot = self.indexes[i];
            proof {
                assert(old(self).padding@[slot as int].0 + padding@[i as int].0 <= SLICE_UPPER);
            }
            let p = self.padding[slot];
            self.padding.set(slot, (p.0 + s, p.1 + e));
            i = i + 1;
            proof {
                assert forall|k: int| #![trigger old(self).indexes@[k]] 0 <= k < i implies {
                    let sl = old(self).indexes@[k] as int;
                    self.padding@[sl].0 == old(self).padding@[sl].0 + (padding@[k]).0
                        && self.padding@[sl].1 == old(self).padding@[sl].1 + padding@[k].1
                } by {
                    if k < i - 1 {
                        assert(old(self).indexes@[k] != old(self).indexes@[i - 1]);
                    }
                }
                assert forall|k: int| #![trigger old(self).indexes@[k]]
                    i <= k < old(self).rank() implies self.padding@[old(self).indexes@[k] as int]
                    == old(self).padding@[old(self).indexes@[k] as int] by {
                    assert(old(self).indexes@[k] != old(self).indexes@[i - 1]);
                }
            }
        }
    }

    pub open spec fn spec_is_sliced(self) -> bool {
        exists|i: int|
            0 <= i < self.slices@.len() && ((#[trigger] self.slices@[i]).0 != 0 || self.slices@[i].1
                != SLICE_UPPER)
    }

    /// True iff some axis carries a non-default slice bound.
    pub fn is_sliced(&self) -> (r: bool)
        ensures
            r == self.spec_is_sliced(),
    {
        let mut i: usize = 0;
        while i < self.slices.len()
            invariant
                i <= self.slices@.len(),
                forall|k: int|
                    0 <= k < i ==> (#[trigger] self.slices@[k]).0 == 0 && self.slices@[k].1
                        == SLICE_UPPER,
            decreases self.slices@.len() - i,
        {
            let (b, e) = self.slices[i];
            if b != 0 || e != SLICE_UPPER {
                return true;
            }
            i = i + 1;
        }
        false
    }

    /// Substitute every unknown dimension with the size its symbol maps to.
    /// Every symbol that occurs must be present in the map.
    pub fn resolve_global_dyn_dims(self, dyn_dim_map: &Vec<(char, usize)>) -> (r: Self)
        requires
            self.wf(),
            forall|i: int|
                0 <= i < self.dims@.len() ==> ((#[trigger] self.dims@[i]) is Unknown
                    ==> (spec_lookup_sym(dyn_dim_map@, self.dims@[i]->Unknown_0) matches Some(v)
                    && v <= SLICE_UPPER)),
        ensures
            r.wf(),
            r.indexes@ == self.indexes@,
            r.fake@ == self.fake@,
            r.slices@ == self.slices@,
            r.padding@ == self.padding@,
            r.dims@.len() == self.dims@.len(),
            forall|i: int|
                0 <= i < self.dims@.len() ==> r.dims@[i] == (match self.dims@[i] {
                    Dim::Known(n) => Dim::Known(n),
                    Dim::Unknown(c) => Dim::Known(
                        spec_lookup_sym(dyn_dim_map@, c)->Some_0,
                    ),
                }),
    {
        let mut s = self;
        let mut i: usize = 0;
        while i < s.dims.len()
            invariant
                s.wf(),
                s.indexes@ == self.indexes@,
                s.fake@ == self.fake@,
                s.slices@ == self.slices@,
                s.padding@ == self.padding@,
                s.dims@.len() == self.dims@.len(),
                i <= self.dims@.len(),
                forall|k: int|
                    0 <= k < self.dims@.len() ==> ((#[trigger] self.dims@[k]) is Unknown
                        ==> (spec_lookup_sym(dyn_dim_map@, self.dims@[k]->Unknown_0) matches Some(v)
                        && v <= SLICE_UPPER)),
                forall|k: int|
                    0 <= k < i ==> s.dims@[k] == (match self.dims@[k] {
                        Dim::Known(n) => Dim::Known(n),
                        Dim::Unknown(c) => Dim::Known(
                            spec_lookup_sym(dyn_dim_map@, c)->Some_0,
                        ),
                    }),
                forall|k: int| i <= k < self.dims@.len() ==> s.dims@[k] == self.dims@[k],
            decreases self.dims@.len() - i,
        {
            match s.dims[i] {
                Dim::Known(_) => {},
                Dim::Unknown(c) => {
                    let v = lookup_sym(dyn_dim_map, c);
                    match v {
                        Some(n) => {
                            s.dims.set(i, Dim::Known(n));
                        },
                        None => {
                            proof {
                                assert(false);
                            }
                        },
                    }
                },
            }
            i = i + 1;
        }
        s
    }

    /// Produce a fresh identity tracker whose sizes are the current
    /// effective (slice-bounded) sizes, stripping permutation, slicing and
    /// padding history.
    pub fn contiguous(self) -> (r: Self)
        requires
            self.wf(),
        ensures
            r.wf(),
            r.dims@.len() == self.rank(),
            r.indexes@ == Seq::new(self.rank() as nat, |i: int| i as usize),
            r.fake@ == Seq::new(self.rank() as nat, |i: int| false),
            r.slices@ == Seq::new(self.rank() as nat, |i: int| (0usize, SLICE_UPPER)),
            r.padding@ == Seq::new(self.rank() as nat, |i: int| (0usize, 0usize)),
            forall|i: int|
                0 <= i < self.rank() ==> r.dims@[i] == (match self.spec_shape()[i] {
                    Dim::Known(n) => Dim::Known(
                        imin(
                            n as int,
                            self.slices@[self.indexes@[i] as int].1
                                - self.slices@[self.indexes@[i] as int].0,
                        ) as usize,
                    ),
                    Dim::Unknown(c) => Dim::Unknown(c),
                }),
    {
        let mut new_dims: Vec<Dim> = Vec::new();
        let mut i: usize = 0;
        while i < self.indexes.len()
            invariant
                self.wf(),
                i <= self.rank(),
                new_dims@.len() == i,
                forall|k: int| 0 <= k < i ==> #[trigger] dim_bounded(new_dims@[k]),
                forall|k: int|
                    0 <= k < i ==> new_dims@[k] == (match self.spec_shape()[k] {
                        Dim::Known(n) => Dim::Known(
                            imin(
                                n as int,
                                self.slices@[self.indexes@[k] as int].1
                                    - self.slices@[self.indexes@[k] as int].0,
                            ) as usize,
                        ),
                        Dim::Unknown(c) => Dim::Unknown(c),
                    }),
            decreases self.rank() - i,
        {
            let slot = self.indexes[i];
            let d = match self.dims[slot] {
                Dim::Known(n) => {
                    let width = self.slices[slot].1 - self.slices[slot].0;
                    Dim::Known(
                        if n < width {
                            n
                        } else {
                            width
                        },
                    )
                },
                Dim::Unknown(c) => Dim::Unknown(c),
            };
            new_dims.push(d);
            i = i + 1;
        }
        Self::new(new_dims.as_slice())
    }
}

impl ShapeTracker {
    /// Effective logical extent of storage slot `slot` for a known size `n`:
    /// the padded size, capped by the upper slice bound, minus the lower one.
    pub open spec fn eff_size(self, slot: int) -> int {
        imin(
            self.dims@[slot]->Known_0 + self.padding@[slot].0 + self.padding@[slot].1,
            self.slices@[slot].1 as int,
        ) - self.slices@[slot].0
    }

    /// Every known axis size plus its two pad amounts fits the machine.
    pub open spec fn padded_fit(self) -> bool {
        forall|t: int|
            0 <= t < self.rank() ==> ((#[trigger] self.dims@[t]) is Known
                ==> self.dims@[t]->Known_0 + self.padding@[t].0 + self.padding@[t].1 <= usize::MAX)
    }

    /// Contribution of logical axis `i` to the logical element count: the
    /// effective (padded and sliced) extent, or zero for an unknown size.
    pub open spec fn n_elements_factor(self, i: int) -> int {
        match self.dims@[self.indexes@[i] as int] {
            Dim::Known(_) => self.eff_size(self.indexes@[i] as int),
            Dim::Unknown(_) => 0,
        }
    }

    /// Product of the first `k` logical element-count factors.
    pub open spec fn n_elements_prefix(self, k: int) -> int
        decreases k,
    {
        if k <= 0 {
            1
        } else {
            self.n_elements_prefix(k - 1) * self.n_elements_factor(k - 1)
        }
    }

    pub open spec fn spec_n_elements(self) -> int {
        self.n_elements_prefix(self.rank() as int)
    }

    /// The number of elements in this tensor, pads and slices included.
    /// An unknown dim contributes zero.
    pub fn n_elements(&self) -> (r: usize)
        requires
            self.wf(),
            self.padded_fit(),
            forall|i: int| 0 <= i < self.rank() ==> #[trigger] self.n_elements_factor(i) >= 0,
            forall|k: int|
                0 <= k <= self.rank() ==> #[trigger] self.n_elements_prefix(k) <= usize::MAX,
        ensures
            r == self.spec_n_elements(),
    {
        let mut p: usize = 1;
        let mut i: usize = 0;
        while i < self.indexes.len()
            invariant
                self.wf(),
                self.padded_fit(),
                i <= self.rank(),
                forall|k: int| 0 <= k < self.rank() ==> #[trigger] self.n_elements_factor(k) >= 0,
                forall|k: int|
                    0 <= k <= self.rank() ==> #[trigger] self.n_elements_prefix(k) <= usize::MAX,
                p == self.n_elements_prefix(i as int),
                p >= 0,
            decreases self.rank() - i,
        {
            let slot = self.indexes[i];
            match self.dims[slot] {
                Dim::Known(n) => {
                    proof {
                        assert(self.dims@[slot as int] == Dim::Known(n));
                        assert(dim_bounded(self.dims@[slot as int]));
                        assert((self.slices@[slot as int]).0 <= self.slices@[slot as int].1
                            <= SLICE_UPPER);
                        assert((self.padding@[slot as int]).0 <= SLICE_UPPER && self.padding@[
                            slot as int
                        ].1 <= SLICE_UPPER);
                    }
                    let padded = n + self.padding[slot].0 + self.padding[slot].1;
                    let capped = if padded < self.slices[slot].1 {
                        padded
                    } else {
                        self.slices[slot].1
                    };
                    proof {
                        assert(self.n_elements_factor(i as int) >= 0);
                        assert(self.n_elements_prefix(i + 1) == self.n_elements_prefix(i as int)
                            * self.n_elements_factor(i as int));
                        assert(p * self.n_elements_factor(i as int) <= usize::MAX);
                    }
                    let eff = capped - self.slices[slot].0;
                    p = p * eff;
                },
                Dim::Unknown(_) => {
                    proof {
                        assert(self.n_elements_prefix(i + 1) == self.n_elements_prefix(i as int)
                            * self.n_elements_factor(i as int));
                    }
                    p = 0;
                },
            }
            i = i + 1;
        }
        p
    }

    /// Contribution of storage slot `i` to the physical element count: its
    /// bare size; fake axes contribute one (they hold no storage), unknown
    /// sizes contribute zero.
    pub open spec fn phys_factor(self, i: int) -> int {
        if self.fake@[i] {
            1
        } else {
            match self.dims@[i] {
                Dim::Known(n) => n as int,
                Dim::Unknown(_) => 0,
            }
        }
    }

    /// Product of the first `k` physical factors, in storage order.
    pub open spec fn phys_prefix(self, k: int) -> int
        decreases k,
    {
        if k <= 0 {
            1
        } else {
            self.phys_prefix(k - 1) * self.phys_factor(k - 1)
        }
    }

    pub open spec fn spec_n_physical_elements(self) -> int {
        self.phys_prefix(self.rank() as int)
    }

    /// The number of stored elements, pads, slices and fake axes excluded.
    /// An unknown dim contributes zero.
    pub fn n_physical_elements(&self) -> (r: usize)
        requires
            self.wf(),
            forall|k: int|
                0 <= k <= self.rank() ==> #[trigger] self.phys_prefix(k) <= usize::MAX,
        ensures
            r == self.spec_n_physical_elements(),
    {
        let mut p: usize = 1;
        let mut i: usize = 0;
        while i < self.dims.len()
            invariant
                self.wf(),
                i <= self.rank(),
                forall|k: int|
                    0 <= k <= self.rank() ==> #[trigger] self.phys_prefix(k) <= usize::MAX,
                p == self.phys_prefix(i as int),
                p >= 0,
            decreases self.rank() - i,
        {
            proof {
                assert(self.phys_prefix(i + 1) == self.phys_prefix(i as int) * self.phys_factor(
                    i as int,
                ));
            }
            if !self.fake[i] {
                match self.dims[i] {
                    Dim::Known(n) => {
                        proof {
                            assert(self.phys_factor(i as int) == n);
                        }
                        p = p * n;
                    },
                    Dim::Unknown(_) => {
                        proof {
                            assert(self.phys_factor(i as int) == 0);
                        }
                        p = 0;
                    },
                }
            } else {
                proof {
                    assert(self.phys_factor(i as int) == 1);
                }
            }
            i = i + 1;
        }
        p
    }
}

/// How one tracker's unresolved axis is filled from the other tracker's
/// axis at the same logical position.
pub open spec fn fill_dim(target: Dim, source: Dim, default_to_one: bool) -> Dim {
    if target == Dim::Unknown('-') {
        if source != Dim::Unknown('-') {
            source
        } else if default_to_one {
            Dim::Known(1)
        } else {
            Dim::Unknown('-')
        }
    } else {
        target
    }
}

/// Reconcile two trackers of matching logical rank, axis by axis: an axis
/// still unresolved in one tracker is filled from the other's value at the
/// same logical position; if both stay unresolved it becomes `1` only when
/// `default_to_one` is requested.
pub fn resolve_local_dyn_dims(a: &mut ShapeTracker, b: &mut ShapeTracker, default_to_one: bool)
    requires
        old(a).wf(),
        old(b).wf(),
        old(a).rank() == old(b).rank(),
    ensures
        final(a).wf(),
        final(b).wf(),
        final(a).indexes@ == old(a).indexes@,
        final(a).fake@ == old(a).fake@,
        final(a).slices@ == old(a).slices@,
        final(a).padding@ == old(a).padding@,
        final(a).rank() == old(a).rank(),
        final(b).indexes@ == old(b).indexes@,
        final(b).fake@ == old(b).fake@,
        final(b).slices@ == old(b).slices@,
        final(b).padding@ == old(b).padding@,
        final(b).rank() == old(b).rank(),
        forall|i: int|
            0 <= i < old(a).rank() ==> final(a).dims@[old(a).indexes@[i] as int] == fill_dim(
                old(a).dims@[old(a).indexes@[i] as int],
                old(b).dims@[old(b).indexes@[i] as int],
                default_to_one,
            ),
        forall|i: int|
            0 <= i < old(b).rank() ==> final(b).dims@[old(b).indexes@[i] as int] == fill_dim(
                old(b).dims@[old(b).indexes@[i] as int],
                final(a).dims@[old(a).indexes@[i] as int],
                default_to_one,
            ),
{
    let mut i: usize = 0;
    while i < a.dims.len()
        invariant
            a.wf(),
            b == old(b),
            a.indexes@ == old(a).indexes@,
            a.fake@ == old(a).fake@,
            a.slices@ == old(a).slices@,
            a.padding@ == old(a).padding@,
            a.rank() == old(a).rank(),
            old(a).rank() == old(b).rank(),
            old(b).wf(),
            i <= a.rank(),
            forall|k: int|
                0 <= k < i ==> #[trigger] a.dims@[old(a).indexes@[k] as int] == fill_dim(
                    old(a).dims@[old(a).indexes@[k] as int],
                    old(b).dims@[old(b).indexes@[k] as int],
                    default_to_one,
                ),
            forall|k: int|
                i <= k < a.rank() ==> #[trigger] a.dims@[old(a).indexes@[k] as int] == old(
                    a,
                ).dims@[old(a).indexes@[k] as int],
        decreases a.rank() - i,
    {
        let slot = a.indexes[i];
        let is_unset = match a.dims[slot] {
            Dim::Unknown(c) => c == '-',
            _ => false,
        };
        if is_unset {
            let bslot = b.indexes[i];
            a.dims.set(slot, b.dims[bslot]);
            let still_unset = match a.dims[slot] {
                Dim::Unknown(c) => c == '-',
                _ => false,
            };
            if still_unset && default_to_one {
                a.dims.set(slot, Dim::Known(1));
            }
        }
        i = i + 1;
        proof {
            assert forall|k: int|
                0 <= k < i implies #[trigger] a.dims@[old(a).indexes@[k] as int] == fill_dim(
                old(a).dims@[old(a).indexes@[k] as int],
                old(b).dims@[old(b).indexes@[k] as int],
                default_to_one,
            ) by {
                if k < i - 1 {
                    assert(old(a).indexes@[k] != old(a).indexes@[i - 1]);
                }
            }
            assert forall|k: int|
                i <= k < a.rank() implies #[trigger] a.dims@[old(a).indexes@[k] as int] == old(
                a,
            ).dims@[old(a).indexes@[k] as int] by {
                assert(old(a).indexes@[k] != old(a).indexes@[i - 1]);
            }
        }
    }
    let ghost a1 = *a;
    let mut i: usize = 0;
    while i < b.dims.len()
        invariant
            b.wf(),
            *a == a1,
            a1.wf(),
            a1.indexes@ == old(a).indexes@,
            a1.rank() == old(a).rank(),
            b.indexes@ == old(b).indexes@,
            b.fake@ == old(b).fake@,
            b.slices@ == old(b).slices@,
            b.padding@ == old(b).padding@,
            b.rank() == old(b).rank(),
            old(a).rank() == old(b).rank(),
            old(b).wf(),
            i <= b.rank(),
            forall|k: int|
                0 <= k < i ==> #[trigger] b.dims@[old(b).indexes@[k] as int] == fill_dim(
                    old(b).dims@[old(b).indexes@[k] as int],
                    a1.dims@[old(a).indexes@[k] as int],
                    default_to_one,
                ),
            forall|k: int|
                i <= k < b.rank() ==> #[trigger] b.dims@[old(b).indexes@[k] as int] == old(
                    b,
                ).dims@[old(b).indexes@[k] as int],
        decreases b.rank() - i,
    {
        let slot = b.indexes[i];
        let is_unset = match b.dims[slot] {
            Dim::Unknown(c) => c == '-',
            _ => false,
        };
        if is_unset {
            let aslot = a.indexes[i];
            b.dims.set(slot, a.dims[aslot]);
            let still_unset = match b.dims[slot] {
                Dim::Unknown(c) => c == '-',
                _ => false,
            };
            if still_unset && default_to_one {
                b.dims.set(slot, Dim::Known(1));
            }
        }
        i = i + 1;
        proof {
            assert forall|k: int|
                0 <= k < i implies #[trigger] b.dims@[old(b).indexes@[k] as int] == fill_dim(
                old(b).dims@[old(b).indexes@[k] as int],
                a1.dims@[old(a).indexes@[k] as int],
                default_to_one,
            ) by {
                if k < i - 1 {
                    assert(old(b).indexes@[k] != old(b).indexes@[i - 1]);
                }
            }
            assert forall|k: int|
                i <= k < b.rank() implies #[trigger] b.dims@[old(b).indexes@[k] as int] == old(
                b,
            ).dims@[old(b).indexes@[k] as int] by {
                assert(old(b).indexes@[k] != old(b).indexes@[i - 1]);
            }
        }
    }
}

impl Clone for ShapeTracker {
    /// A copy whose five per-axis records equal the original's.
    fn clone(&self) -> (r: Self)
        ensures
            r.dims@ == self.dims@,
            r.indexes@ == self.indexes@,
            r.fake@ == self.fake@,
            r.slices@ == self.slices@,
            r.padding@ == self.padding@,
    {
        ShapeTracker {
            dims: crate::ops::copy_vec(&self.dims),
            indexes: crate::ops::copy_vec(&self.indexes),
            fake: crate::ops::copy_vec(&self.fake),
            slices: crate::ops::copy_vec(&self.slices),
            padding: crate::ops::copy_vec(&self.padding),
        }
    }
}

/// The logical shape left after deleting, from last to first, the listed
/// logical axes (given in ascending order).
pub open spec fn remove_axes(s: Seq<Dim>, axes: Seq<usize>) -> Seq<Dim>
    decreases axes.len(),
{
    if axes.len() == 0 {
        s
    } else {
        remove_axes(s.remove(axes.last() as int), axes.drop_last())
    }
}

/// Peeling the first listed axis: it is deleted last, from the result of
/// deleting all the others.
pub proof fn lemma_remove_axes_first(s: Seq<Dim>, axes: Seq<usize>)
    requires
        axes.len() > 0,
    ensures
        remove_axes(s, axes) == remove_axes(s, axes.drop_first()).remove(axes.first() as int),
    decreases axes.len(),
{
    reveal_with_fuel(remove_axes, 3);
    if axes.len() == 1 {
        assert(axes.drop_last().len() == 0);
        assert(axes.drop_first().len() == 0);
        assert(axes.last() == axes.first());
    } else {
        lemma_remove_axes_first(s.remove(axes.last() as int), axes.drop_last());
        assert(axes.drop_last().drop_first() =~= axes.drop_first().drop_last());
        assert(axes.drop_last().first() == axes.first());
        assert(axes.drop_first().last() == axes.last());
    }
}

/// In a strictly increasing list, positions at least `j - i` apart differ
/// by at least that much.
pub proof fn lemma_increasing_gap(axes: Seq<usize>, i: int, j: int)
    requires
        forall|a: int, b: int| 0 <= a < b < axes.len() ==> axes[a] < axes[b],
        0 <= i <= j < axes.len(),
    ensures
        axes[j] >= axes[i] + (j - i),
    decreases j - i,
{
    if i < j {
        lemma_increasing_gap(axes, i, j - 1);
        assert(axes[j - 1] < axes[j]);
    }
}

/// Deleting a logical axis deletes exactly that position from the logical
/// shape.
pub proof fn lemma_remove_dim_shape(t0: ShapeTracker, t1: ShapeTracker, axis: usize)
    requires
        t0.wf(),
        axis < t0.rank(),
        t1.dims@ == t0.dims@.remove(t0.indexes@[axis as int] as int),
        t1.indexes@ == t0.indexes@.remove(axis as int).map_values(
            |v: usize|
                if v > t0.indexes@[axis as int] {
                    (v - 1) as usize
                } else {
                    v
                },
        ),
    ensures
        t1.spec_shape() == t0.spec_shape().remove(axis as int),
{
    let slot = t0.indexes@[axis as int] as int;
    assert forall|i: int|
        0 <= i < t1.indexes@.len() implies t1.spec_shape()[i] == t0.spec_shape().remove(
        axis as int,
    )[i] by {
        let v = t0.indexes@.remove(axis as int)[i];
        assert(t1.indexes@[i] == (if v > slot {
            (v - 1) as usize
        } else {
            v
        }));
        if i < axis {
            assert(v == t0.indexes@[i]);
            assert(v != slot);
            assert(t0.spec_shape().remove(axis as int)[i] == t0.spec_shape()[i]);
        } else {
            assert(v == t0.indexes@[i + 1]);
            assert(v != slot);
            assert(t0.spec_shape().remove(axis as int)[i] == t0.spec_shape()[i + 1]);
        }
        if v > slot {
            assert(t1.dims@[v - 1] == t0.dims@[v as int]);
        } else {
            assert(t1.dims@[v as int] == t0.dims@[v as int]);
        }
    }
    assert(t1.spec_shape() =~= t0.spec_shape().remove(axis as int));
}

/// Two trackers describe the same layout: all five per-axis records agree.
pub open spec fn view_eq(a: ShapeTracker, b: ShapeTracker) -> bool {
    &&& a.dims@ == b.dims@
    &&& a.indexes@ == b.indexes@
    &&& a.fake@ == b.fake@
    &&& a.slices@ == b.slices@
    &&& a.padding@ == b.padding@
}

/// First value recorded for symbol `c` in an association list.
pub open spec fn spec_lookup_sym(map: Seq<(char, usize)>, c: char) -> Option<usize>
    decreases map.len(),
{
    if map.len() == 0 {
        None
    } else if map[0].0 == c {
        Some(map[0].1)
    } else {
        spec_lookup_sym(map.drop_first(), c)
    }
}

/// Linear search of a symbol table.
pub fn lookup_sym(map: &Vec<(char, usize)>, c: char) -> (r: Option<usize>)
    ensures
        r == spec_lookup_sym(map@, c),
{
    let mut i: usize = 0;
    proof {
        assert(map@.skip(0) =~= map@);
    }
    while i < map.len()
        invariant
            i <= map@.len(),
            spec_lookup_sym(map@, c) == spec_lookup_sym(map@.skip(i as int), c),
        decreases map@.len() - i,
    {
        let (k, v) = map[i];
        proof {
            assert(map@.skip(i as int).drop_first() =~= map@.skip(i + 1));
        }
        if k == c {
            return Some(v);
        }
        i = i + 1;
    }
    proof {
        assert(map@.skip(map@.len() as int).len() == 0);
    }
    None
}

pub open spec fn imin(a: int, b: int) -> int {
    if a <= b {
        a
    } else {
        b
    }
}

pub open spec fn imax(a: int, b: int) -> int {
    if a >= b {
        a
    } else {
        b
    }
}

/// A known axis size never exceeds the slice sentinel.
pub open spec fn dim_bounded(d: Dim) -> bool {
    match d {
        Dim::Known(n) => n <= SLICE_UPPER,
        Dim::Unknown(_) => true,
    }
}

} // verus!
