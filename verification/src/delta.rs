//! The delta codec: partitions the current state of one component
//! field against a snapshot into (full values for newcomers, compact
//! diffs for changed entities), and the inverse that rebuilds the
//! current field from the snapshot and that pair.

use vstd::prelude::*;

use crate::bitmask::{
    count_set, join_slots, lemma_count_set_le, NetworkBitmask,
};
use crate::components::Delta;

verus! {

/// The first present slot at or after `i` whose id equals `id`.
pub open spec fn lookup_from<T>(slots: Seq<Option<T>>, ids: Seq<u32>, id: u32, i: int) -> Option<
    T,
>
    decreases slots.len() - i,
{
    if i < 0 || i >= slots.len() {
        None
    } else if slots[i] is Some && ids[i] == id {
        slots[i]
    } else {
        lookup_from(slots, ids, id, i + 1)
    }
}

/// The value recorded for NetId `id`: the value of the first set slot
/// whose id is `id`, if any.
pub open spec fn lookup_masked<T>(slots: Seq<Option<T>>, ids: Seq<u32>, id: u32) -> Option<T> {
    lookup_from(slots, ids, id, 0)
}

/// No slot holds a value on both sides at once.
pub open spec fn slots_disjoint<A, B>(a: Seq<Option<A>>, b: Seq<Option<B>>) -> bool {
    forall|i: int| 0 <= i < a.len() ==> !(#[trigger] a[i] is Some && b[i] is Some)
}

impl<T: Copy> NetworkBitmask<T> {
    /// The value this container holds for NetId `id`, if any, given
    /// the entity-id ordering the mask is aligned to.
    pub fn find_masked(&self, ids: &Vec<u32>, id: u32) -> (r: Option<T>)
        requires
            self.wf(),
            self.len() <= ids@.len(),
        ensures
            r == lookup_masked(self.slots(), ids@, id),
    {
        let n = self.mask_len();
        let mut vi: usize = 0;
        for i in 0..n
            invariant
                self.wf(),
                n == self.len(),
                n <= ids@.len(),
                vi == count_set(self.bits(), i as int),
                lookup_masked(self.slots(), ids@, id) == lookup_from(
                    self.slots(),
                    ids@,
                    id,
                    i as int,
                ),
        {
            proof {
                lemma_count_set_le(self.bits(), i as int);
            }
            let slot = self.slot_at(i, vi);
            if let Some(v) = slot {
                if ids[i] == id {
                    return Some(v);
                }
                vi = vi + 1;
            }
        }
        None
    }
}

/// What the new-mask holds at one slot: the full current value when
/// the entity is new to the snapshot or its diff is not representable.
pub open spec fn partition_new_slot<T: Delta>(
    cur_slot: Option<T>,
    id: u32,
    snap: Seq<Option<T>>,
    snap_ids: Seq<u32>,
) -> Option<T> {
    match cur_slot {
        None => None,
        Some(a) => match lookup_masked(snap, snap_ids, id) {
            Some(b) => match b.delta_spec(a) {
                Some(_) => None,
                None => Some(a),
            },
            None => Some(a),
        },
    }
}

/// What the delta-mask holds at one slot: the compact diff when the
/// entity is present in both and its diff is representable.
pub open spec fn partition_delta_slot<T: Delta>(
    cur_slot: Option<T>,
    id: u32,
    snap: Seq<Option<T>>,
    snap_ids: Seq<u32>,
) -> Option<T::DeltaType> {
    match cur_slot {
        None => None,
        Some(a) => match lookup_masked(snap, snap_ids, id) {
            Some(b) => b.delta_spec(a),
            None => None,
        },
    }
}

/// The full new-mask of a field diffed against a snapshot.
pub open spec fn field_delta_new<T: Delta>(
    cur: Seq<Option<T>>,
    cur_ids: Seq<u32>,
    snap: Seq<Option<T>>,
    snap_ids: Seq<u32>,
) -> Seq<Option<T>> {
    Seq::new(cur.len(), |p: int| partition_new_slot(cur[p], cur_ids[p], snap, snap_ids))
}

/// The full delta-mask of a field diffed against a snapshot.
pub open spec fn field_delta_diff<T: Delta>(
    cur: Seq<Option<T>>,
    cur_ids: Seq<u32>,
    snap: Seq<Option<T>>,
    snap_ids: Seq<u32>,
) -> Seq<Option<T::DeltaType>> {
    Seq::new(cur.len(), |p: int| partition_delta_slot(cur[p], cur_ids[p], snap, snap_ids))
}

/// One slot of the reconstruction: the snapshot value for the slot's
/// id with the diff applied.
pub open spec fn apply_slot<T: Delta>(d_slot: Option<T::DeltaType>, found: Option<T>) -> Option<
    T,
> {
    match d_slot {
        None => None,
        Some(d) => match found {
            Some(b) => Some(b.apply_spec(d)),
            None => None,
        },
    }
}

/// The reconstruction of a whole field from a snapshot and a delta-mask.
pub open spec fn field_apply<T: Delta>(
    d: Seq<Option<T::DeltaType>>,
    ids: Seq<u32>,
    snap: Seq<Option<T>>,
    snap_ids: Seq<u32>,
) -> Seq<Option<T>> {
    Seq::new(d.len(), |p: int| apply_slot::<T>(d[p], lookup_masked(snap, snap_ids, ids[p])))
}

/// Every diff in the delta-mask refers to an id the snapshot holds.
/// A delta violating this is a codec bug on the sender's side.
pub open spec fn field_applicable<T: Delta>(
    d: Seq<Option<T::DeltaType>>,
    ids: Seq<u32>,
    snap: Seq<Option<T>>,
    snap_ids: Seq<u32>,
) -> bool {
    forall|p: int|
        0 <= p < d.len() && #[trigger] d[p] is Some ==> lookup_masked(snap, snap_ids, ids[p])
            is Some
}

/// Decide at run time whether a received delta-mask is applicable to
/// a snapshot: every diff's NetId must be present in the snapshot.
pub fn is_applicable<T: Delta>(
    delta: &NetworkBitmask<T::DeltaType>,
    entities_id: &Vec<u32>,
    snapshot: &NetworkBitmask<T>,
    snapshot_entities_id: &Vec<u32>,
) -> (r: bool)
    requires
        delta.wf(),
        snapshot.wf(),
        delta.len() == entities_id@.len(),
        snapshot.len() <= snapshot_entities_id@.len(),
    ensures
        r == field_applicable::<T>(
            delta.slots(),
            entities_id@,
            snapshot.slots(),
            snapshot_entities_id@,
        ),
{
    let n = delta.mask_len();
    let mut vi: usize = 0;
    for p in 0..n
        invariant
            delta.wf(),
            snapshot.wf(),
            n == delta.len(),
            n == entities_id@.len(),
            snapshot.len() <= snapshot_entities_id@.len(),
            vi == count_set(delta.bits(), p as int),
            forall|q: int|
                0 <= q < p && #[trigger] delta.slots()[q] is Some ==> lookup_masked(
                    snapshot.slots(),
                    snapshot_entities_id@,
                    entities_id@[q],
                ) is Some,
    {
        proof {
            lemma_count_set_le(delta.bits(), p as int);
        }
        match delta.slot_at(p, vi) {
            Some(_) => {
                vi = vi + 1;
                if snapshot.find_masked(snapshot_entities_id, entities_id[p]).is_none() {
                    return false;
                }
            },
            None => {},
        }
    }
    true
}

/// Partition the current field `current` (aligned to `entities_id`)
/// against the snapshot field `snapshot` (aligned to
/// `snapshot_entities_id`): full values for entities new to the
/// snapshot or whose diff is not representable, compact diffs for the
/// rest. The two resulting masks are disjoint and cover `current`.
pub fn get_delta_bitmask<T: Delta>(
    current: &NetworkBitmask<T>,
    snapshot: &NetworkBitmask<T>,
    entities_id: &Vec<u32>,
    snapshot_entities_id: &Vec<u32>,
) -> (r: (NetworkBitmask<T>, NetworkBitmask<T::DeltaType>))
    requires
        current.wf(),
        snapshot.wf(),
        current.len() == entities_id@.len(),
        snapshot.len() <= snapshot_entities_id@.len(),
    ensures
        r.0.wf(),
        r.1.wf(),
        r.0.len() == current.len(),
        r.1.len() == current.len(),
        r.0.slots() == field_delta_new(
            current.slots(),
            entities_id@,
            snapshot.slots(),
            snapshot_entities_id@,
        ),
        r.1.slots() == field_delta_diff(
            current.slots(),
            entities_id@,
            snapshot.slots(),
            snapshot_entities_id@,
        ),
{
    let ghost target_new = field_delta_new(
        current.slots(),
        entities_id@,
        snapshot.slots(),
        snapshot_entities_id@,
    );
    let ghost target_diff = field_delta_diff(
        current.slots(),
        entities_id@,
        snapshot.slots(),
        snapshot_entities_id@,
    );
    let n = current.mask_len();
    let mut new_mask: NetworkBitmask<T> = NetworkBitmask::new();
    let mut delta_mask: NetworkBitmask<T::DeltaType> = NetworkBitmask::new();
    let mut vi: usize = 0;
    for p in 0..n
        invariant
            current.wf(),
            snapshot.wf(),
            n == current.len(),
            n == entities_id@.len(),
            snapshot.len() <= snapshot_entities_id@.len(),
            vi == count_set(current.bits(), p as int),
            new_mask.wf(),
            delta_mask.wf(),
            new_mask.len() == p,
            delta_mask.len() == p,
            target_new == field_delta_new(
                current.slots(),
                entities_id@,
                snapshot.slots(),
                snapshot_entities_id@,
            ),
            target_diff == field_delta_diff(
                current.slots(),
                entities_id@,
                snapshot.slots(),
                snapshot_entities_id@,
            ),
            new_mask.slots() =~= target_new.take(p as int),
            delta_mask.slots() =~= target_diff.take(p as int),
    {
        proof {
            lemma_count_set_le(current.bits(), p as int);
        }
        match current.slot_at(p, vi) {
            Some(a) => {
                vi = vi + 1;
                match snapshot.find_masked(snapshot_entities_id, entities_id[p]) {
                    Some(b) => {
                        match b.delta(&a) {
                            Some(d) => {
                                new_mask.push_absent();
                                delta_mask.add_value(d);
                            },
                            None => {
                                new_mask.add_value(a);
                                delta_mask.push_absent();
                            },
                        }
                    },
                    None => {
                        new_mask.add_value(a);
                        delta_mask.push_absent();
                    },
                }
            },
            None => {
                new_mask.push_absent();
                delta_mask.push_absent();
            },
        }
        proof {
            assert(new_mask.slots() =~= target_new.take(p as int + 1));
            assert(delta_mask.slots() =~= target_diff.take(p as int + 1));
        }
    }
    proof {
        assert(new_mask.slots() =~= target_new);
        assert(delta_mask.slots() =~= target_diff);
    }
    (new_mask, delta_mask)
}

/// Rebuild the entries a delta-mask describes: for each diff, look up
/// the snapshot value of the same NetId and apply the diff to it.
/// The result still lacks the newcomers; `join` it with the delta's
/// new-mask to obtain the complete field.
pub fn apply_delta_bitmask<T: Delta>(
    delta: &NetworkBitmask<T::DeltaType>,
    snapshot: &NetworkBitmask<T>,
    entities_id: &Vec<u32>,
    snapshot_entities_id: &Vec<u32>,
) -> (r: NetworkBitmask<T>)
    requires
        delta.wf(),
        snapshot.wf(),
        delta.len() == entities_id@.len(),
        snapshot.len() <= snapshot_entities_id@.len(),
        field_applicable::<T>(
            delta.slots(),
            entities_id@,
            snapshot.slots(),
            snapshot_entities_id@,
        ),
    ensures
        r.wf(),
        r.len() == delta.len(),
        r.slots() == field_apply::<T>(
            delta.slots(),
            entities_id@,
            snapshot.slots(),
            snapshot_entities_id@,
        ),
{
    let ghost target = field_apply::<T>(
        delta.slots(),
        entities_id@,
        snapshot.slots(),
        snapshot_entities_id@,
    );
    let n = delta.mask_len();
    let mut rebuilt: NetworkBitmask<T> = NetworkBitmask::new();
    let mut vi: usize = 0;
    for p in 0..n
        invariant
            delta.wf(),
            snapshot.wf(),
            n == delta.len(),
            n == entities_id@.len(),
            snapshot.len() <= snapshot_entities_id@.len(),
            field_applicable::<T>(
                delta.slots(),
                entities_id@,
                snapshot.slots(),
                snapshot_entities_id@,
            ),
            vi == count_set(delta.bits(), p as int),
            rebuilt.wf(),
            rebuilt.len() == p,
            target == field_apply::<T>(
                delta.slots(),
                entities_id@,
                snapshot.slots(),
                snapshot_entities_id@,
            ),
            rebuilt.slots() =~= target.take(p as int),
    {
        proof {
            lemma_count_set_le(delta.bits(), p as int);
        }
        match delta.slot_at(p, vi) {
            Some(d) => {
                vi = vi + 1;
                let found = snapshot.find_masked(snapshot_entities_id, entities_id[p]);
                // The requires rules an absent base value out.
                let b = found.unwrap();
                rebuilt.add_value(b.apply(&d));
            },
            None => {
                rebuilt.push_absent();
            },
        }
        proof {
            assert(rebuilt.slots() =~= target.take(p as int + 1));
        }
    }
    proof {
        assert(rebuilt.slots() =~= target);
    }
    rebuilt
}

/// Delta round-trip at the field level: diffing a current field
/// against a snapshot and then rebuilding from the snapshot — apply
/// the delta-mask, then join with the new-mask — reproduces the
/// current field exactly. The produced delta-mask is always
/// applicable to the snapshot it was diffed against, and the two
/// produced masks are disjoint.
pub proof fn lemma_field_delta_roundtrip<T: Delta>(
    cur: Seq<Option<T>>,
    cur_ids: Seq<u32>,
    snap: Seq<Option<T>>,
    snap_ids: Seq<u32>,
)
    ensures
        field_applicable::<T>(
            field_delta_diff(cur, cur_ids, snap, snap_ids),
            cur_ids,
            snap,
            snap_ids,
        ),
        slots_disjoint(
            field_delta_new(cur, cur_ids, snap, snap_ids),
            field_delta_diff(cur, cur_ids, snap, snap_ids),
        ),
        join_slots(
            field_apply::<T>(
                field_delta_diff(cur, cur_ids, snap, snap_ids),
                cur_ids,
                snap,
                snap_ids,
            ),
            field_delta_new(cur, cur_ids, snap, snap_ids),
        ) == cur,
{
    let diff = field_delta_diff(cur, cur_ids, snap, snap_ids);
    let newm = field_delta_new(cur, cur_ids, snap, snap_ids);
    let applied = field_apply::<T>(diff, cur_ids, snap, snap_ids);
    assert forall|p: int| 0 <= p < cur.len() implies join_slots(applied, newm)[p] == cur[p] by {
        if cur[p] is Some {
            let a = cur[p].unwrap();
            match lookup_masked(snap, snap_ids, cur_ids[p]) {
                Some(b) => {
                    if b.delta_spec(a) is Some {
                        b.lemma_delta_apply(a);
                    }
                },
                None => {},
            }
        }
    };
    assert(join_slots(applied, newm) =~= cur);
}

/// Full replacement: a current entry whose NetId the snapshot does
/// not hold is carried whole in the new-mask, and the reconstruction
/// reproduces it from there.
pub proof fn lemma_full_replacement<T: Delta>(
    cur: Seq<Option<T>>,
    cur_ids: Seq<u32>,
    snap: Seq<Option<T>>,
    snap_ids: Seq<u32>,
    p: int,
)
    requires
        0 <= p < cur.len(),
        cur[p] is Some,
        lookup_masked(snap, snap_ids, cur_ids[p]) is None,
    ensures
        field_delta_new(cur, cur_ids, snap, snap_ids)[p] == cur[p],
        field_delta_diff(cur, cur_ids, snap, snap_ids)[p] is None,
        join_slots(
            field_apply::<T>(
                field_delta_diff(cur, cur_ids, snap, snap_ids),
                cur_ids,
                snap,
                snap_ids,
            ),
            field_delta_new(cur, cur_ids, snap, snap_ids),
        )[p] == cur[p],
{
}

/// Delta fallback: when the component's diff is not representable for
/// an entity present in both snapshots, the full current value goes
/// to the new-mask and the reconstruction still reproduces it.
pub proof fn lemma_delta_fallback<T: Delta>(
    cur: Seq<Option<T>>,
    cur_ids: Seq<u32>,
    snap: Seq<Option<T>>,
    snap_ids: Seq<u32>,
    p: int,
)
    requires
        0 <= p < cur.len(),
        cur[p] is Some,
        lookup_masked(snap, snap_ids, cur_ids[p]) is Some,
        lookup_masked(snap, snap_ids, cur_ids[p]).unwrap().delta_spec(cur[p].unwrap()) is None,
    ensures
        field_delta_new(cur, cur_ids, snap, snap_ids)[p] == cur[p],
        field_delta_diff(cur, cur_ids, snap, snap_ids)[p] is None,
        join_slots(
            field_apply::<T>(
                field_delta_diff(cur, cur_ids, snap, snap_ids),
                cur_ids,
                snap,
                snap_ids,
            ),
            field_delta_new(cur, cur_ids, snap, snap_ids),
        )[p] == cur[p],
{
}

} // verus!
