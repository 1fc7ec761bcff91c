//! The fundamental encoding unit for sparse per-entity data: a bit
//! per entity slot paired with a dense vector holding one value for
//! each set bit, in bit order.

use vstd::prelude::*;

use crate::bits::{bits_of, bv_clone, bv_get, bv_len, bv_new, bv_push};

verus! {

/// How many of the first `n` bits are set.
pub open spec fn count_set(bits: Seq<bool>, n: int) -> nat
    decreases n,
{
    if n <= 0 {
        0nat
    } else {
        count_set(bits, n - 1) + (if bits[n - 1] {
            1nat
        } else {
            0nat
        })
    }
}

/// `count_set` reads only the first `n` bits.
pub proof fn lemma_count_set_prefix(s1: Seq<bool>, s2: Seq<bool>, n: int)
    requires
        forall|j: int| 0 <= j < n ==> s1[j] == s2[j],
    ensures
        count_set(s1, n) == count_set(s2, n),
    decreases n,
{
    if n > 0 {
        lemma_count_set_prefix(s1, s2, n - 1);
    }
}

/// `count_set` is monotone in the prefix length.
pub proof fn lemma_count_set_mono(s: Seq<bool>, m: int, n: int)
    requires
        m <= n,
    ensures
        count_set(s, m) <= count_set(s, n),
    decreases n - m,
{
    if m < n {
        lemma_count_set_mono(s, m, n - 1);
    }
}

/// At most `n` of the first `n` bits are set.
pub proof fn lemma_count_set_le(s: Seq<bool>, n: int)
    requires
        0 <= n,
    ensures
        count_set(s, n) <= n,
    decreases n,
{
    if n > 0 {
        lemma_count_set_le(s, n - 1);
    }
}

/// A set bit strictly raises the count of any longer prefix.
pub proof fn lemma_count_set_lt(s: Seq<bool>, i: int, n: int)
    requires
        0 <= i < n,
        s[i],
    ensures
        count_set(s, i) < count_set(s, n),
{
    lemma_count_set_mono(s, i + 1, n);
}

/// Pairs a bit-vector (one bit per entity slot) with the dense vector
/// of values present at the set bits: the i-th set bit corresponds to
/// the i-th value.
#[derive(Debug, PartialEq)]
pub struct NetworkBitmask<T> {
    pub entities_mask: bit_vec::BitVec<u32>,
    pub values: Vec<T>,
}

impl<T> NetworkBitmask<T> {
    pub open spec fn bits(&self) -> Seq<bool> {
        bits_of(self.entities_mask)
    }

    pub open spec fn len(&self) -> nat {
        self.bits().len()
    }

    /// The container invariant: one value per set bit.
    pub open spec fn wf(&self) -> bool {
        self.values@.len() == count_set(self.bits(), self.bits().len() as int)
    }

    /// The value at slot `i`: the value belonging to bit `i` when it
    /// is set, nothing when it is clear. This sequence of optional
    /// values is the mathematical content of the container.
    pub open spec fn slots(&self) -> Seq<Option<T>> {
        Seq::new(
            self.bits().len(),
            |i: int|
                if self.bits()[i] {
                    Some(self.values@[count_set(self.bits(), i) as int])
                } else {
                    None::<T>
                },
        )
    }
}

impl<T: Copy> NetworkBitmask<T> {
    /// A container of length zero.
    pub fn new() -> (r: Self)
        ensures
            r.wf(),
            r.len() == 0,
            r.slots() =~= Seq::<Option<T>>::empty(),
    {
        NetworkBitmask { entities_mask: bv_new(), values: Vec::new() }
    }

    /// Append one value, setting a new trailing bit.
    pub fn add_value(&mut self, value: T)
        requires
            old(self).wf(),
            old(self).len() < usize::MAX,
        ensures
            final(self).wf(),
            final(self).len() == old(self).len() + 1,
            final(self).slots() =~= old(self).slots().push(Some(value)),
    {
        proof {
            lemma_count_set_prefix(
                self.bits().push(true),
                self.bits(),
                self.bits().len() as int,
            );
        }
        self.values.push(value);
        bv_push(&mut self.entities_mask, true);
        proof {
            let bits = self.bits();
            let n = bits.len() as int;
            assert(count_set(bits, n) == count_set(bits, n - 1) + 1);
            assert forall|i: int| 0 <= i < n - 1 implies #[trigger] count_set(bits, i)
                == count_set(old(self).bits(), i) by {
                lemma_count_set_prefix(bits, old(self).bits(), i);
            }
            assert forall|i: int| 0 <= i < n - 1 && bits[i] implies count_set(bits, i)
                < old(self).values@.len() by {
                lemma_count_set_lt(old(self).bits(), i, n - 1);
                lemma_count_set_prefix(bits, old(self).bits(), i);
            }
        }
    }

    /// Lengthen the mask by one clear bit; no value accompanies it.
    pub fn push_absent(&mut self)
        requires
            old(self).wf(),
            old(self).len() < usize::MAX,
        ensures
            final(self).wf(),
            final(self).len() == old(self).len() + 1,
            final(self).slots() =~= old(self).slots().push(None::<T>),
    {
        proof {
            lemma_count_set_prefix(
                self.bits().push(false),
                self.bits(),
                self.bits().len() as int,
            );
        }
        bv_push(&mut self.entities_mask, false);
        proof {
            let bits = self.bits();
            let n = bits.len() as int;
            assert(count_set(bits, n) == count_set(bits, n - 1));
            assert forall|i: int| 0 <= i < n - 1 implies #[trigger] count_set(bits, i)
                == count_set(old(self).bits(), i) by {
                lemma_count_set_prefix(bits, old(self).bits(), i);
            }
        }
    }

    /// The number of entity slots the mask covers.
    pub fn mask_len(&self) -> (r: usize)
        ensures
            r == self.len(),
    {
        bv_len(&self.entities_mask)
    }

    /// The slot at `i`, read with its running value index `vi`.
    pub fn slot_at(&self, i: usize, vi: usize) -> (r: Option<T>)
        requires
            self.wf(),
            i < self.len(),
            vi == count_set(self.bits(), i as int),
        ensures
            r == self.slots()[i as int],
    {
        let bit = bv_get(&self.entities_mask, i);
        if bit == Some(true) {
            proof {
                lemma_count_set_lt(self.bits(), i as int, self.bits().len() as int);
            }
            Some(self.values[vi])
        } else {
            None
        }
    }

    /// An equal, independent container.
    pub fn duplicate(&self) -> (r: Self)
        requires
            self.wf(),
        ensures
            r.wf(),
            r.bits() == self.bits(),
            r.values@ == self.values@,
            r.slots() =~= self.slots(),
    {
        let mut values: Vec<T> = Vec::new();
        let n = self.values.len();
        for k in 0..n
            invariant
                n == self.values@.len(),
                values@ =~= self.values@.take(k as int),
        {
            values.push(self.values[k]);
            proof {
                assert(values@ =~= self.values@.take(k as int + 1));
            }
        }
        proof {
            assert(values@ =~= self.values@);
        }
        NetworkBitmask { entities_mask: bv_clone(&self.entities_mask), values }
    }
}

/// The ids, in mask order, of the entities whose bit is set.
pub open spec fn masked_ids<T>(slots: Seq<Option<T>>, ids: Seq<u32>) -> Seq<u32>
    decreases slots.len(),
{
    if slots.len() == 0 {
        Seq::<u32>::empty()
    } else {
        let rest = masked_ids(slots.drop_last(), ids);
        if slots.last() is Some {
            rest.push(ids[slots.len() - 1])
        } else {
            rest
        }
    }
}

impl<T: Copy> NetworkBitmask<T> {
    /// Enumerate the NetIds whose bit is set, in mask order, given the
    /// entity-id ordering the mask is aligned to.
    pub fn masked_entities_id(&self, entities_ids: &Vec<u32>) -> (r: Vec<u32>)
        requires
            self.wf(),
            self.len() <= entities_ids@.len(),
        ensures
            r@ == masked_ids(self.slots(), entities_ids@),
    {
        let mut masked: Vec<u32> = Vec::new();
        let n = self.mask_len();
        let mut vi: usize = 0;
        for i in 0..n
            invariant
                self.wf(),
                n == self.len(),
                n <= entities_ids@.len(),
                vi == count_set(self.bits(), i as int),
                vi <= self.values@.len(),
                masked@ == masked_ids(self.slots().take(i as int), entities_ids@),
        {
            proof {
                assert(self.slots().take(i as int + 1).drop_last() =~= self.slots().take(
                    i as int,
                ));
                lemma_count_set_mono(self.bits(), i as int + 1, self.bits().len() as int);
                lemma_count_set_le(self.bits(), i as int);
            }
            if self.slot_at(i, vi).is_some() {
                proof {
                    lemma_count_set_lt(self.bits(), i as int, self.bits().len() as int);
                }
                masked.push(entities_ids[i]);
                vi = vi + 1;
            }
        }
        proof {
            assert(self.slots().take(n as int) =~= self.slots());
        }
        masked
    }
}

/// The pointwise content of a join: where self holds a value keep it,
/// else take the other's.
pub open spec fn join_slots<T>(a: Seq<Option<T>>, b: Seq<Option<T>>) -> Seq<Option<T>> {
    Seq::new(
        a.len(),
        |i: int|
            if a[i] is Some {
                a[i]
            } else {
                b[i]
            },
    )
}

impl<T: Copy> NetworkBitmask<T> {
    /// Merge two masks of identical length: for each slot where self
    /// holds a value keep it, else take the other's value if present;
    /// slots empty on both sides stay empty.
    pub fn join(&mut self, other: &NetworkBitmask<T>)
        requires
            old(self).wf(),
            other.wf(),
            old(self).len() == other.len(),
        ensures
            final(self).wf(),
            final(self).slots() =~= join_slots(old(self).slots(), other.slots()),
    {
        let n = self.mask_len();
        let mut joined: NetworkBitmask<T> = NetworkBitmask::new();
        let mut si: usize = 0;
        let mut oi: usize = 0;
        for i in 0..n
            invariant
                self == old(self),
                self.wf(),
                other.wf(),
                n == self.len(),
                n == other.len(),
                n <= usize::MAX,
                si == count_set(self.bits(), i as int),
                oi == count_set(other.bits(), i as int),
                joined.wf(),
                joined.len() == i,
                joined.slots() =~= join_slots(self.slots(), other.slots()).take(i as int),
        {
            proof {
                lemma_count_set_mono(self.bits(), i as int + 1, n as int);
                lemma_count_set_mono(other.bits(), i as int + 1, n as int);
                lemma_count_set_le(self.bits(), i as int);
                lemma_count_set_le(other.bits(), i as int);
                if self.bits()[i as int] {
                    lemma_count_set_lt(self.bits(), i as int, n as int);
                }
                if other.bits()[i as int] {
                    lemma_count_set_lt(other.bits(), i as int, n as int);
                }
            }
            let s_slot = self.slot_at(i, si);
            let o_slot = other.slot_at(i, oi);
            match s_slot {
                Some(v) => {
                    joined.add_value(v);
                },
                None => {
                    match o_slot {
                        Some(v) => {
                            joined.add_value(v);
                        },
                        None => {
                            joined.push_absent();
                        },
                    }
                },
            }
            if s_slot.is_some() {
                si = si + 1;
            }
            if o_slot.is_some() {
                oi = oi + 1;
            }
            proof {
                assert(joined.slots() =~= join_slots(self.slots(), other.slots()).take(
                    i as int + 1,
                ));
            }
        }
        proof {
            assert(joined.slots() =~= join_slots(self.slots(), other.slots()));
        }
        *self = joined;
    }
}

} // verus!
