//! Archetype: a growable bitset over component-type ids, backed by 64-bit
//! segments. Two archetypes are equal when their bit patterns agree, ignoring
//! trailing all-zero segments.

use vstd::prelude::*;

use crate::entity::Entity;

verus! {

/// True when bit `k` of segment `s` is set.
pub open spec fn seg_bit(s: u64, k: u64) -> bool {
    (s >> k) & 1u64 == 1u64
}

proof fn lemma_bit_or(s: u64, j: u64, k: u64)
    by (bit_vector)
    requires
        j < 64,
        k < 64,
    ensures
        seg_bit(s | (1u64 << j), k) == (seg_bit(s, k) || j == k),
{
}

proof fn lemma_bit_clear(s: u64, j: u64, k: u64)
    by (bit_vector)
    requires
        j < 64,
        k < 64,
    ensures
        seg_bit(s & !(1u64 << j), k) == (seg_bit(s, k) && j != k),
{
}

proof fn lemma_bit_test(s: u64, j: u64)
    by (bit_vector)
    requires
        j < 64,
    ensures
        (s & (1u64 << j) != 0) == seg_bit(s, j),
{
}

proof fn lemma_zero_bit(k: u64)
    by (bit_vector)
    requires
        k < 64,
    ensures
        !seg_bit(0u64, k),
{
}

proof fn lemma_and_bit(a: u64, b: u64, k: u64)
    by (bit_vector)
    requires
        k < 64,
    ensures
        seg_bit(a & b, k) == (seg_bit(a, k) && seg_bit(b, k)),
{
}

proof fn lemma_xor_bit(a: u64, b: u64, k: u64)
    by (bit_vector)
    requires
        k < 64,
    ensures
        seg_bit(a ^ b, k) == (seg_bit(a, k) != seg_bit(b, k)),
{
}

/// A nonzero segment has at least one set bit.
proof fn lemma_nonzero_has_bit(x: u64)
    requires
        x != 0,
    ensures
        exists|k: u64| k < 64 && seg_bit(x, k),
{
    assert(x >> 0u64 == x) by (bit_vector);
    lemma_nonzero_has_bit_from(x, 0);
    let j = choose|j: u64| 0 <= j < 64 && seg_bit(x, j);
    assert(j < 64 && seg_bit(x, j));
}

proof fn lemma_nonzero_has_bit_from(x: u64, k: u64)
    requires
        k < 64,
        x >> k != 0,
    ensures
        exists|j: u64| k <= j < 64 && seg_bit(x, j),
    decreases 64 - k,
{
    if (x >> k) & 1u64 == 1u64 {
        assert(k <= k < 64 && seg_bit(x, k));
    } else {
        assert(k < 63) by (bit_vector)
            requires
                k < 64 && x >> k != 0 && (x >> k) & 1u64 != 1u64,
        ;
        let k1: u64 = (k + 1) as u64;
        assert(x >> k1 != 0) by (bit_vector)
            requires
                k1 == k + 1 && k < 63 && x >> k != 0 && (x >> k) & 1u64 != 1u64,
        ;
        lemma_nonzero_has_bit_from(x, k1);
        let j = choose|j: u64| k1 <= j < 64 && seg_bit(x, j);
        assert(k <= j < 64 && seg_bit(x, j));
    }
}

/// Two overlapping segments share a concrete bit.
proof fn lemma_common_witness(a: u64, b: u64)
    requires
        a & b != 0,
    ensures
        exists|k: u64| k < 64 && seg_bit(a, k) && seg_bit(b, k),
{
    lemma_nonzero_has_bit(a & b);
    let k = choose|k: u64| k < 64 && seg_bit(a & b, k);
    lemma_and_bit(a, b, k);
    assert(k < 64 && seg_bit(a, k) && seg_bit(b, k));
}

/// A segment not covered by another has a concrete bit set only in itself.
proof fn lemma_not_subset_witness(a: u64, b: u64)
    requires
        a & b != a,
    ensures
        exists|k: u64| k < 64 && seg_bit(a, k) && !seg_bit(b, k),
{
    assert(((a & b) ^ a) != 0) by (bit_vector)
        requires
            a & b != a,
    ;
    lemma_nonzero_has_bit((a & b) ^ a);
    let k = choose|k: u64| k < 64 && seg_bit((a & b) ^ a, k);
    lemma_xor_bit(a & b, a, k);
    lemma_and_bit(a, b, k);
    assert(k < 64 && seg_bit(a, k) && !seg_bit(b, k));
}

/// Two distinct segments differ at a concrete bit.
proof fn lemma_diff_witness(a: u64, b: u64)
    requires
        a != b,
    ensures
        exists|k: u64| k < 64 && seg_bit(a, k) != seg_bit(b, k),
{
    assert((a ^ b) != 0) by (bit_vector)
        requires
            a != b,
    ;
    lemma_nonzero_has_bit(a ^ b);
    let k = choose|k: u64| k < 64 && seg_bit(a ^ b, k);
    lemma_xor_bit(a, b, k);
    assert(k < 64 && seg_bit(a, k) != seg_bit(b, k));
}

/// Two archetypes with the same segments and count have the same bits, and
/// well-formedness carries over from one to the other.
pub(crate) proof fn lemma_wf_same_bits(a: Archetype, b: Archetype)
    requires
        a.wf(),
        b.segments == a.segments,
        b.count == a.count,
    ensures
        b.wf(),
        forall|id: int| b.spec_has(id) == a.spec_has(id),
{
    assert forall|id: int| b.spec_has(id) == a.spec_has(id) by {
        assert(b.segments@ == a.segments@);
    }
}

/// A bitset of component-type ids, optionally tagged with the entity that
/// owns it. `count` is one past the highest id ever inserted; the segments
/// always cover exactly `count` bits (rounded up to whole segments).
pub struct Archetype {
    pub owner: Option<Entity>,
    pub count: usize,
    pub segments: Vec<u64>,
    pub dirty: bool,
}

impl Archetype {
    /// Bit `id` is set in the backing segments.
    pub open spec fn spec_has(self, id: int) -> bool {
        &&& 0 <= id
        &&& id / 64 < self.segments@.len()
        &&& seg_bit(self.segments@[id / 64], (id % 64) as u64)
    }

    /// The segments cover exactly `count` bits and no bit at or beyond
    /// `count` is set.
    pub open spec fn wf(self) -> bool {
        &&& self.segments@.len() == (self.count + 63) / 64
        &&& forall|id: int| self.spec_has(id) ==> id < self.count
    }

    /// Every bit of `self` is also a bit of `other`.
    pub open spec fn subset_of(self, other: Archetype) -> bool {
        forall|id: int| self.spec_has(id) ==> other.spec_has(id)
    }

    /// Some bit is set in both archetypes.
    pub open spec fn shares_bit_with(self, other: Archetype) -> bool {
        exists|id: int| self.spec_has(id) && other.spec_has(id)
    }

    /// The two archetypes have exactly the same bits set.
    pub open spec fn same_bits(self, other: Archetype) -> bool {
        forall|id: int| self.spec_has(id) == other.spec_has(id)
    }

    /// An empty bitset: no bits, zero count, not dirty.
    pub fn new(owner: Option<Entity>) -> (archetype: Self)
        ensures
            archetype.wf(),
            archetype.owner == owner,
            archetype.count == 0,
            !archetype.dirty,
            forall|id: int| !archetype.spec_has(id),
    {
        Self { owner, count: 0, segments: Vec::new(), dirty: false }
    }

    /// The entity this bitset belongs to, if any.
    pub fn owner(&self) -> (owner: Option<Entity>)
        ensures
            owner == self.owner,
    {
        self.owner
    }

    /// Sets bit `id`, growing the backing segments as needed. Returns `true`
    /// when the bit was already set (a duplicate), `false` when it was newly
    /// set; only a new bit marks the archetype dirty.
    pub fn insert(&mut self, id: usize) -> (dup: bool)
        requires
            old(self).wf(),
            id < usize::MAX,
        ensures
            final(self).wf(),
            dup == old(self).spec_has(id as int),
            forall|j: int| final(self).spec_has(j) == (old(self).spec_has(j) || j == id),
            final(self).count == if id < old(self).count {
                old(self).count as int
            } else {
                id + 1
            },
            final(self).owner == old(self).owner,
            final(self).dirty == (old(self).dirty || !old(self).spec_has(id as int)),
    {
        let index = id / 64;
        let shift = (id % 64) as u64;
        let bitmask: u64 = 1u64 << shift;
        if self.count <= id {
            self.count = id + 1;
            let ghost pre = self.segments@;
            proof {
                assert(pre.len() <= index + 1);
            }
            while self.segments.len() < index + 1
                invariant
                    index < usize::MAX,
                    pre.len() <= self.segments@.len() <= index + 1,
                    forall|i: int| 0 <= i < pre.len() ==> self.segments@[i] == pre[i],
                    forall|i: int|
                        pre.len() <= i < self.segments@.len() ==> self.segments@[i] == 0u64,
                    self.count == old(self).count || self.count == id + 1,
                    self.count == id + 1,
                    self.owner == old(self).owner,
                    self.dirty == old(self).dirty,
                decreases index + 1 - self.segments.len(),
            {
                self.segments.push(0u64);
            }
            proof {
                assert(self.segments@.len() == index + 1);
                assert((id + 1 + 63) / 64 == id / 64 + 1);
            }
            let ghost grown = self.segments@;
            let s = self.segments[index];
            self.segments.set(index, s | bitmask);
            self.dirty = true;
            proof {
                assert forall|j: int|
                    final(self).spec_has(j) == (old(self).spec_has(j) || j == id) by {
                    if 0 <= j && j / 64 < index + 1 {
                        if j / 64 == index {
                            lemma_bit_or(grown[index as int], shift, (j % 64) as u64);
                        }
                        if pre.len() <= j / 64 {
                            if !(j / 64 == index && (j % 64) as u64 == shift) {
                                lemma_zero_bit((j % 64) as u64);
                            }
                        }
                    }
                }
                assert(final(self).wf());
            }
            false
        } else if self.segments[index] & bitmask == 0 {
            let ghost pre = self.segments@;
            let s = self.segments[index];
            self.segments.set(index, s | bitmask);
            self.dirty = true;
            proof {
                lemma_bit_test(s, shift);
                assert forall|j: int|
                    final(self).spec_has(j) == (old(self).spec_has(j) || j == id) by {
                    if 0 <= j && j / 64 == index {
                        lemma_bit_or(pre[index as int], shift, (j % 64) as u64);
                    }
                }
                assert(final(self).wf());
            }
            false
        } else {
            proof {
                lemma_bit_test(self.segments@[index as int], shift);
            }
            true
        }
    }

    /// True exactly when bit `id` is set.
    pub fn has(&self, id: usize) -> (present: bool)
        requires
            self.wf(),
        ensures
            present == self.spec_has(id as int),
    {
        if id < self.count {
            let shift = (id % 64) as u64;
            let present = self.segments[id / 64] & (1u64 << shift) != 0;
            proof {
                lemma_bit_test(self.segments@[id as int / 64], shift);
            }
            present
        } else {
            false
        }
    }

    /// Clears bit `id` when it is set; out-of-range or absent ids are a
    /// no-op. Returns whether a bit was cleared; clearing marks the
    /// archetype dirty.
    pub fn remove(&mut self, id: usize) -> (removed: bool)
        requires
            old(self).wf(),
        ensures
            final(self).wf(),
            removed == old(self).spec_has(id as int),
            forall|j: int| final(self).spec_has(j) == (old(self).spec_has(j) && j != id),
            final(self).count == old(self).count,
            final(self).owner == old(self).owner,
            final(self).dirty == (old(self).dirty || old(self).spec_has(id as int)),
    {
        let shift = (id % 64) as u64;
        let bitmask: u64 = 1u64 << shift;
        if id < self.count && self.segments[id / 64] & bitmask != 0 {
            let index = id / 64;
            let ghost pre = self.segments@;
            let s = self.segments[index];
            self.segments.set(index, s & !bitmask);
            self.dirty = true;
            proof {
                lemma_bit_test(s, shift);
                assert forall|j: int|
                    final(self).spec_has(j) == (old(self).spec_has(j) && j != id) by {
                    if 0 <= j && j / 64 == index {
                        lemma_bit_clear(pre[index as int], shift, (j % 64) as u64);
                    }
                }
                assert(final(self).wf());
            }
            true
        } else {
            proof {
                if id < self.count {
                    lemma_bit_test(self.segments@[id as int / 64], shift);
                }
            }
            false
        }
    }

    /// Zeroes every segment without shrinking capacity, so a recycled owner
    /// can refill it without reallocation. Marks the archetype dirty.
    pub fn clear(&mut self)
        requires
            old(self).wf(),
        ensures
            final(self).wf(),
            forall|j: int| !final(self).spec_has(j),
            final(self).count == old(self).count,
            final(self).owner == old(self).owner,
            final(self).dirty,
    {
        let ghost c0 = self.count;
        let ghost o0 = self.owner;
        let n = self.segments.len();
        let mut i: usize = 0;
        while i < n
            invariant
                i <= n,
                n == self.segments@.len(),
                self.count == c0,
                self.owner == o0,
                forall|k: int| 0 <= k < i ==> self.segments@[k] == 0u64,
            decreases n - i,
        {
            self.segments.set(i, 0u64);
            i += 1;
        }
        self.dirty = true;
        proof {
            assert forall|j: int| !final(self).spec_has(j) by {
                if 0 <= j && j / 64 < n {
                    lemma_zero_bit((j % 64) as u64);
                }
            }
        }
    }

    /// Whether any bit is set in both this archetype and `other`.
    pub fn has_common_with(&self, other: &Archetype) -> (common: bool)
        requires
            self.wf(),
            other.wf(),
        ensures
            common == self.shares_bit_with(*other),
    {
        let n = if self.segments.len() < other.segments.len() {
            self.segments.len()
        } else {
            other.segments.len()
        };
        let mut i: usize = 0;
        while i < n
            invariant
                i <= n,
                n <= self.segments@.len(),
                n <= other.segments@.len(),
                n == self.segments@.len() || n == other.segments@.len(),
                forall|id: int|
                    0 <= id && id / 64 < i ==> !(self.spec_has(id) && other.spec_has(id)),
            decreases n - i,
        {
            let a = self.segments[i];
            let b = other.segments[i];
            if a & b != 0 {
                proof {
                    lemma_common_witness(a, b);
                    let k = choose|k: u64| k < 64 && seg_bit(a, k) && seg_bit(b, k);
                    let id = 64 * (i as int) + (k as int);
                    assert(id / 64 == i && id % 64 == k);
                    assert(self.spec_has(id) && other.spec_has(id));
                }
                return true;
            }
            proof {
                assert forall|id: int|
                    0 <= id && id / 64 < i + 1 implies !(self.spec_has(id) && other.spec_has(
                    id,
                )) by {
                    if id / 64 == i {
                        lemma_and_bit(a, b, (id % 64) as u64);
                        lemma_zero_bit((id % 64) as u64);
                    }
                }
            }
            i += 1;
        }
        proof {
            assert forall|id: int| !(self.spec_has(id) && other.spec_has(id)) by {
                if 0 <= id && id / 64 < n {
                } else {
                }
            }
        }
        false
    }

    /// Whether every bit of this archetype is also set in `other`. Segments
    /// beyond either bitset's length are read as zero, so a stale `count`
    /// left behind by `remove` or `clear` does not matter.
    pub fn is_subset_of(&self, other: &Archetype) -> (subset: bool)
        requires
            self.wf(),
            other.wf(),
        ensures
            subset == self.subset_of(*other),
    {
        let la = self.segments.len();
        let lb = other.segments.len();
        let n = if la < lb {
            la
        } else {
            lb
        };
        let mut i: usize = 0;
        while i < n
            invariant
                i <= n,
                n <= la,
                n <= lb,
                la == self.segments@.len(),
                lb == other.segments@.len(),
                n == la || n == lb,
                forall|id: int|
                    0 <= id && id / 64 < i ==> (self.spec_has(id) ==> other.spec_has(id)),
            decreases n - i,
        {
            let a = self.segments[i];
            let b = other.segments[i];
            if a & b != a {
                proof {
                    lemma_not_subset_witness(a, b);
                    let k = choose|k: u64| k < 64 && seg_bit(a, k) && !seg_bit(b, k);
                    let id = 64 * (i as int) + (k as int);
                    assert(id / 64 == i && id % 64 == k);
                    assert(self.spec_has(id) && !other.spec_has(id));
                }
                return false;
            }
            proof {
                assert forall|id: int|
                    0 <= id && id / 64 < i + 1 && self.spec_has(id) implies other.spec_has(
                    id,
                ) by {
                    if id / 64 == i && self.spec_has(id) {
                        lemma_and_bit(a, b, (id % 64) as u64);
                        assert((a & b) == a);
                        assert(seg_bit(a & b, (id % 64) as u64) == seg_bit(a, (id % 64) as u64));
                    }
                }
            }
            i += 1;
        }
        // any segments of this archetype beyond `other`'s length must be
        // all zero
        let mut k = n;
        while k < la
            invariant
                n <= k <= la,
                n <= lb,
                la == self.segments@.len(),
                lb == other.segments@.len(),
                n == la || n == lb,
                forall|id: int|
                    0 <= id && id / 64 < k ==> (self.spec_has(id) ==> other.spec_has(id)),
            decreases la - k,
        {
            let s = self.segments[k];
            if s != 0 {
                proof {
                    lemma_nonzero_has_bit(s);
                    let j = choose|j: u64| j < 64 && seg_bit(s, j);
                    let id = 64 * (k as int) + (j as int);
                    assert(id / 64 == k && id % 64 == j);
                    assert(self.spec_has(id));
                    assert(!other.spec_has(id));
                }
                return false;
            }
            proof {
                assert forall|id: int|
                    0 <= id && id / 64 < k + 1 && self.spec_has(id) implies other.spec_has(
                    id,
                ) by {
                    if id / 64 == k {
                        lemma_zero_bit((id % 64) as u64);
                    }
                }
            }
            k += 1;
        }
        proof {
            assert forall|id: int| self.spec_has(id) implies other.spec_has(id) by {
                if 0 <= id && id / 64 < la {
                }
            }
        }
        true
    }

    /// Whether every bit of `other` is also set in this archetype, with the
    /// same trailing-zero reading as `is_subset_of`.
    pub fn is_superset_of(&self, other: &Archetype) -> (superset: bool)
        requires
            self.wf(),
            other.wf(),
        ensures
            superset == other.subset_of(*self),
    {
        other.is_subset_of(self)
    }

    /// Whether the archetype changed since the last `flush`.
    pub fn dirty(&self) -> (dirty: bool)
        ensures
            dirty == self.dirty,
    {
        self.dirty
    }

    /// Acknowledges all changes so far.
    pub fn flush(&mut self)
        ensures
            *final(self) == (Archetype { dirty: false, ..*old(self) }),
    {
        self.dirty = false;
    }
}

impl PartialEq for Archetype {
    /// Bit patterns agree, ignoring trailing all-zero segments.
    fn eq(&self, other: &Self) -> (same: bool) {
        let la = self.segments.len();
        let lb = other.segments.len();
        let n = if la < lb {
            lb
        } else {
            la
        };
        let mut i: usize = 0;
        while i < n
            invariant
                i <= n,
                la == self.segments@.len(),
                lb == other.segments@.len(),
                n >= la,
                n >= lb,
                n == la || n == lb,
                forall|id: int| 0 <= id && id / 64 < i ==> self.spec_has(id) == other.spec_has(id),
            decreases n - i,
        {
            let a = if i < la {
                self.segments[i]
            } else {
                0u64
            };
            let b = if i < lb {
                other.segments[i]
            } else {
                0u64
            };
            if a != b {
                proof {
                    lemma_diff_witness(a, b);
                    let k = choose|k: u64| k < 64 && seg_bit(a, k) != seg_bit(b, k);
                    let id = 64 * (i as int) + (k as int);
                    assert(id / 64 == i && id % 64 == k);
                    if i >= la {
                        lemma_zero_bit(k);
                    }
                    if i >= lb {
                        lemma_zero_bit(k);
                    }
                    assert(self.spec_has(id) != other.spec_has(id));
                }
                return false;
            }
            proof {
                assert forall|id: int|
                    0 <= id && id / 64 < i + 1 implies self.spec_has(id) == other.spec_has(id) by {
                    if id / 64 == i {
                        lemma_zero_bit((id % 64) as u64);
                    }
                }
            }
            i += 1;
        }
        proof {
            assert forall|id: int| self.spec_has(id) == other.spec_has(id) by {
                if 0 <= id && id / 64 < n {
                }
            }
        }
        true
    }
}

impl vstd::std_specs::cmp::PartialEqSpecImpl for Archetype {
    open spec fn obeys_eq_spec() -> bool {
        true
    }

    open spec fn eq_spec(&self, other: &Self) -> bool {
        self.same_bits(*other)
    }
}

} // verus!
