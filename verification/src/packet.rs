//! The replicated packet schema: a snapshot packet carrying the full
//! state of every registered component field at one frame, the delta
//! packet carrying the change against an earlier snapshot, and the
//! codec machinery wired per field.

use vstd::prelude::*;

use crate::bitmask::{join_slots, NetworkBitmask};
use crate::components::{Color, DeltaPosition, Position, Rectangle, Unchanged};
use crate::delta::{
    apply_delta_bitmask, field_applicable, field_apply, field_delta_diff, field_delta_new,
    get_delta_bitmask, is_applicable, lemma_field_delta_roundtrip, slots_disjoint,
};

verus! {

/// The mathematical content of a snapshot packet: the frame, the
/// entity-id ordering, and each field as a sequence of optional
/// component values aligned to that ordering.
#[verifier::ext_equal]
pub struct SnapshotModel {
    pub frame: u32,
    pub ids: Seq<u32>,
    pub positions: Seq<Option<Position>>,
    pub colors: Seq<Option<Color>>,
    pub rectangles: Seq<Option<Rectangle>>,
}

/// The mathematical content of a delta packet: per field, the
/// newcomers' full values and the changed entities' compact diffs.
#[verifier::ext_equal]
pub struct DeltaModel {
    pub frame: u32,
    pub snapshot_frame: u32,
    pub ids: Seq<u32>,
    pub new_positions: Seq<Option<Position>>,
    pub new_colors: Seq<Option<Color>>,
    pub new_rectangles: Seq<Option<Rectangle>>,
    pub diff_positions: Seq<Option<DeltaPosition>>,
    pub diff_colors: Seq<Option<Unchanged>>,
    pub diff_rectangles: Seq<Option<Unchanged>>,
}

/// A self-contained packet carrying the full replicated state at one
/// frame. Every field mask has exactly one slot per entry of
/// `entities_id`.
#[derive(Debug, PartialEq)]
pub struct NetworkPacket {
    pub frame: u32,
    pub entities_id: Vec<u32>,
    pub positions: NetworkBitmask<Position>,
    pub colors: NetworkBitmask<Color>,
    pub rectangles: NetworkBitmask<Rectangle>,
}

/// A packet carrying the change from a snapshot (`snapshot_frame`) to
/// a later frame: per field, full values for entities the snapshot
/// does not cover and compact diffs for entities present in both.
/// Per field the two masks are disjoint.
#[derive(Debug, PartialEq)]
pub struct NetworkDeltaPacket {
    pub frame: u32,
    pub snapshot_frame: u32,
    pub entities_id: Vec<u32>,
    pub positions: NetworkBitmask<Position>,
    pub colors: NetworkBitmask<Color>,
    pub rectangles: NetworkBitmask<Rectangle>,
    pub delta_positions: NetworkBitmask<DeltaPosition>,
    pub delta_colors: NetworkBitmask<Unchanged>,
    pub delta_rectangles: NetworkBitmask<Unchanged>,
}

impl NetworkPacket {
    pub open spec fn wf(&self) -> bool {
        &&& self.positions.wf()
        &&& self.colors.wf()
        &&& self.rectangles.wf()
        &&& self.positions.len() == self.entities_id@.len()
        &&& self.colors.len() == self.entities_id@.len()
        &&& self.rectangles.len() == self.entities_id@.len()
    }

    pub open spec fn model(&self) -> SnapshotModel {
        SnapshotModel {
            frame: self.frame,
            ids: self.entities_id@,
            positions: self.positions.slots(),
            colors: self.colors.slots(),
            rectangles: self.rectangles.slots(),
        }
    }
}

impl NetworkDeltaPacket {
    pub open spec fn wf(&self) -> bool {
        &&& self.positions.wf()
        &&& self.colors.wf()
        &&& self.rectangles.wf()
        &&& self.delta_positions.wf()
        &&& self.delta_colors.wf()
        &&& self.delta_rectangles.wf()
        &&& self.positions.len() == self.entities_id@.len()
        &&& self.colors.len() == self.entities_id@.len()
        &&& self.rectangles.len() == self.entities_id@.len()
        &&& self.delta_positions.len() == self.entities_id@.len()
        &&& self.delta_colors.len() == self.entities_id@.len()
        &&& self.delta_rectangles.len() == self.entities_id@.len()
        &&& slots_disjoint(self.positions.slots(), self.delta_positions.slots())
        &&& slots_disjoint(self.colors.slots(), self.delta_colors.slots())
        &&& slots_disjoint(self.rectangles.slots(), self.delta_rectangles.slots())
    }

    pub open spec fn model(&self) -> DeltaModel {
        DeltaModel {
            frame: self.frame,
            snapshot_frame: self.snapshot_frame,
            ids: self.entities_id@,
            new_positions: self.positions.slots(),
            new_colors: self.colors.slots(),
            new_rectangles: self.rectangles.slots(),
            diff_positions: self.delta_positions.slots(),
            diff_colors: self.delta_colors.slots(),
            diff_rectangles: self.delta_rectangles.slots(),
        }
    }
}

/// What diffing the current state `cur` against the snapshot `snap`
/// yields, field by field.
pub open spec fn spec_delta(cur: SnapshotModel, snap: SnapshotModel) -> DeltaModel {
    DeltaModel {
        frame: cur.frame,
        snapshot_frame: snap.frame,
        ids: cur.ids,
        new_positions: field_delta_new(cur.positions, cur.ids, snap.positions, snap.ids),
        new_colors: field_delta_new(cur.colors, cur.ids, snap.colors, snap.ids),
        new_rectangles: field_delta_new(cur.rectangles, cur.ids, snap.rectangles, snap.ids),
        diff_positions: field_delta_diff(cur.positions, cur.ids, snap.positions, snap.ids),
        diff_colors: field_delta_diff(cur.colors, cur.ids, snap.colors, snap.ids),
        diff_rectangles: field_delta_diff(cur.rectangles, cur.ids, snap.rectangles, snap.ids),
    }
}

/// Whether every diff a delta carries refers to an id its base
/// snapshot holds; only such a delta can be applied.
pub open spec fn spec_applicable(snap: SnapshotModel, d: DeltaModel) -> bool {
    &&& field_applicable::<Position>(d.diff_positions, d.ids, snap.positions, snap.ids)
    &&& field_applicable::<Color>(d.diff_colors, d.ids, snap.colors, snap.ids)
    &&& field_applicable::<Rectangle>(d.diff_rectangles, d.ids, snap.rectangles, snap.ids)
}

/// What reconstructing from the snapshot `snap` and the delta `d`
/// yields: per field, the diffs applied to their snapshot values,
/// joined with the newcomers' full values.
pub open spec fn spec_apply(snap: SnapshotModel, d: DeltaModel) -> SnapshotModel {
    SnapshotModel {
        frame: d.frame,
        ids: d.ids,
        positions: join_slots(
            field_apply::<Position>(d.diff_positions, d.ids, snap.positions, snap.ids),
            d.new_positions,
        ),
        colors: join_slots(
            field_apply::<Color>(d.diff_colors, d.ids, snap.colors, snap.ids),
            d.new_colors,
        ),
        rectangles: join_slots(
            field_apply::<Rectangle>(d.diff_rectangles, d.ids, snap.rectangles, snap.ids),
            d.new_rectangles,
        ),
    }
}

/// Copy a vector of entity ids.
pub fn copy_ids(v: &Vec<u32>) -> (r: Vec<u32>)
    ensures
        r@ == v@,
{
    let mut r: Vec<u32> = Vec::new();
    let n = v.len();
    for i in 0..n
        invariant
            n == v@.len(),
            r@ =~= v@.take(i as int),
    {
        r.push(v[i]);
        proof {
            assert(r@ =~= v@.take(i as int + 1));
        }
    }
    proof {
        assert(r@ =~= v@);
    }
    r
}

impl NetworkPacket {
    /// An equal, independent packet.
    pub fn duplicate(&self) -> (r: NetworkPacket)
        requires
            self.wf(),
        ensures
            r.wf(),
            r.model() == self.model(),
            r.frame == self.frame,
            r.entities_id@ == self.entities_id@,
    {
        let r = NetworkPacket {
            frame: self.frame,
            entities_id: copy_ids(&self.entities_id),
            positions: self.positions.duplicate(),
            colors: self.colors.duplicate(),
            rectangles: self.rectangles.duplicate(),
        };
        proof {
            assert(r.model() =~= self.model());
        }
        r
    }

    /// Diff this packet (the current state) against `snapshot`,
    /// producing the delta packet that carries newcomers whole and
    /// changed entities as compact diffs.
    pub fn delta(&self, snapshot: &NetworkPacket) -> (d: NetworkDeltaPacket)
        requires
            self.wf(),
            snapshot.wf(),
        ensures
            d.wf(),
            d.model() == spec_delta(self.model(), snapshot.model()),
    {
        let (new_positions, diff_positions) = get_delta_bitmask(
            &self.positions,
            &snapshot.positions,
            &self.entities_id,
            &snapshot.entities_id,
        );
        let (new_colors, diff_colors) = get_delta_bitmask(
            &self.colors,
            &snapshot.colors,
            &self.entities_id,
            &snapshot.entities_id,
        );
        let (new_rectangles, diff_rectangles) = get_delta_bitmask(
            &self.rectangles,
            &snapshot.rectangles,
            &self.entities_id,
            &snapshot.entities_id,
        );
        proof {
            lemma_field_delta_roundtrip::<Position>(
                self.positions.slots(),
                self.entities_id@,
                snapshot.positions.slots(),
                snapshot.entities_id@,
            );
            lemma_field_delta_roundtrip::<Color>(
                self.colors.slots(),
                self.entities_id@,
                snapshot.colors.slots(),
                snapshot.entities_id@,
            );
            lemma_field_delta_roundtrip::<Rectangle>(
                self.rectangles.slots(),
                self.entities_id@,
                snapshot.rectangles.slots(),
                snapshot.entities_id@,
            );
        }
        let d = NetworkDeltaPacket {
            frame: self.frame,
            snapshot_frame: snapshot.frame,
            entities_id: copy_ids(&self.entities_id),
            positions: new_positions,
            colors: new_colors,
            rectangles: new_rectangles,
            delta_positions: diff_positions,
            delta_colors: diff_colors,
            delta_rectangles: diff_rectangles,
        };
        proof {
            assert(d.model() =~= spec_delta(self.model(), snapshot.model()));
        }
        d
    }

    /// Reconstruct the full packet a delta describes, using this
    /// packet as the base snapshot. The caller must know the delta is
    /// applicable; `try_apply` decides that at run time.
    pub fn apply(&self, delta: &NetworkDeltaPacket) -> (r: NetworkPacket)
        requires
            self.wf(),
            delta.wf(),
            spec_applicable(self.model(), delta.model()),
        ensures
            r.wf(),
            r.model() == spec_apply(self.model(), delta.model()),
    {
        let mut positions = apply_delta_bitmask(
            &delta.delta_positions,
            &self.positions,
            &delta.entities_id,
            &self.entities_id,
        );
        positions.join(&delta.positions);
        let mut colors = apply_delta_bitmask(
            &delta.delta_colors,
            &self.colors,
            &delta.entities_id,
            &self.entities_id,
        );
        colors.join(&delta.colors);
        let mut rectangles = apply_delta_bitmask(
            &delta.delta_rectangles,
            &self.rectangles,
            &delta.entities_id,
            &self.entities_id,
        );
        rectangles.join(&delta.rectangles);
        let r = NetworkPacket {
            frame: delta.frame,
            entities_id: copy_ids(&delta.entities_id),
            positions,
            colors,
            rectangles,
        };
        proof {
            assert(r.model() =~= spec_apply(self.model(), delta.model()));
        }
        r
    }

    /// Reconstruct from a delta that arrived over the network: decide
    /// applicability first, and return nothing — the delta is to be
    /// dropped — when it refers to an id this snapshot does not hold.
    pub fn try_apply(&self, delta: &NetworkDeltaPacket) -> (r: Option<NetworkPacket>)
        requires
            self.wf(),
            delta.wf(),
        ensures
            r is Some <==> spec_applicable(self.model(), delta.model()),
            r is Some ==> r.unwrap().wf() && r.unwrap().model() == spec_apply(
                self.model(),
                delta.model(),
            ),
    {
        let ok_positions = is_applicable(
            &delta.delta_positions,
            &delta.entities_id,
            &self.positions,
            &self.entities_id,
        );
        let ok_colors = is_applicable(
            &delta.delta_colors,
            &delta.entities_id,
            &self.colors,
            &self.entities_id,
        );
        let ok_rectangles = is_applicable(
            &delta.delta_rectangles,
            &delta.entities_id,
            &self.rectangles,
            &self.entities_id,
        );
        if ok_positions && ok_colors && ok_rectangles {
            Some(self.apply(delta))
        } else {
            None
        }
    }
}

/// Delta round-trip at the packet level: for any two snapshots over
/// the schema, diffing the later against the earlier always yields an
/// applicable delta, and applying it to the earlier reconstructs the
/// later exactly.
pub proof fn lemma_packet_delta_roundtrip(s0: SnapshotModel, s1: SnapshotModel)
    ensures
        spec_applicable(s0, spec_delta(s1, s0)),
        spec_apply(s0, spec_delta(s1, s0)) == s1,
{
    lemma_field_delta_roundtrip::<Position>(s1.positions, s1.ids, s0.positions, s0.ids);
    lemma_field_delta_roundtrip::<Color>(s1.colors, s1.ids, s0.colors, s0.ids);
    lemma_field_delta_roundtrip::<Rectangle>(s1.rectangles, s1.ids, s0.rectangles, s0.ids);
    assert(spec_apply(s0, spec_delta(s1, s0)) =~= s1);
}

} // verus!
