//! The server's per-tick network work: advance the frame clock,
//! decide whether this is a snapshot frame or a delta frame, and
//! enqueue the corresponding message for every connected client.

use vstd::prelude::*;

use crate::controller::NetworkController;
use crate::packet::{spec_delta, NetworkDeltaPacket, NetworkPacket};
use crate::transport::{
    ser_server_message, ClientList, DeliveryRequirement, Message, ServerMessageModel,
    TransportResource,
};

verus! {

/// The reference snapshot: the last full snapshot the server emitted,
/// against which delta frames are diffed.
pub struct GameSnapshot {
    pub packet: NetworkPacket,
}

/// Copy a list of destination addresses.
pub fn copy_addrs(v: &Vec<crate::transport::NetAddr>) -> (r: Vec<crate::transport::NetAddr>)
    ensures
        r@ == v@,
{
    let mut r: Vec<crate::transport::NetAddr> = Vec::new();
    let n = v.len();
    for i in 0..n
        invariant
            n == v@.len(),
            r@ =~= v@.take(i as int),
    {
        r.push(v[i]);
        proof {
            assert(r@ =~= v@.take(i as int + 1));
        }
    }
    proof {
        assert(r@ =~= v@);
    }
    r
}

/// Serialize one snapshot as a tagged server message.
pub fn serialize_snapshot_message(s: &NetworkPacket) -> (out: Vec<u8>)
    requires
        s.wf(),
        s.entities_id@.len() <= u32::MAX,
    ensures
        out@ == ser_server_message(ServerMessageModel::Snapshot(s.model())),
{
    let mut out: Vec<u8> = Vec::new();
    out.push(0u8);
    let mut body = s.serialize();
    out.append(&mut body);
    proof {
        assert(out@ =~= ser_server_message(ServerMessageModel::Snapshot(s.model())));
    }
    out
}

/// Serialize one delta as a tagged server message.
pub fn serialize_delta_message(d: &NetworkDeltaPacket) -> (out: Vec<u8>)
    requires
        d.wf(),
        d.entities_id@.len() <= u32::MAX,
    ensures
        out@ == ser_server_message(ServerMessageModel::Delta(d.model())),
{
    let mut out: Vec<u8> = Vec::new();
    out.push(1u8);
    let mut body = d.serialize();
    out.append(&mut body);
    proof {
        assert(out@ =~= ser_server_message(ServerMessageModel::Delta(d.model())));
    }
    out
}

/// One server tick's network work: advance the frame; on a snapshot
/// frame persist `current` as the new reference snapshot and enqueue
/// it whole, unreliably, for all clients; on any other frame diff
/// `current` against the reference snapshot and enqueue the delta on
/// the reliable-sequenced stream. Snapshots are self-contained and
/// idempotent, so losing one only costs one period; deltas need their
/// base snapshot, so they ride a channel that delivers in order.
pub fn update_server(
    controller: &mut NetworkController,
    snapshot: &mut GameSnapshot,
    current: NetworkPacket,
    clients: &ClientList,
    transport: &mut TransportResource,
)
    requires
        old(controller).wf(),
        old(controller).frame < u32::MAX,
        old(snapshot).packet.wf(),
        current.wf(),
        current.entities_id@.len() <= u32::MAX,
    ensures
        final(controller).wf(),
        final(controller).frame == old(controller).frame + 1,
        final(controller).snapshot_frequency == old(controller).snapshot_frequency,
        final(snapshot).packet.wf(),
        final(transport).messages@.len() == old(transport).messages@.len() + 1,
        final(transport).messages@.take(old(transport).messages@.len() as int) == old(
            transport,
        ).messages@,
        ({
            let m = final(transport).messages@.last();
            let is_snap = ((old(controller).frame + 1) as u32 % old(controller).snapshot_frequency
                == 0);
            &&& m.destination@ == clients.clients@
            &&& (if is_snap {
                &&& final(snapshot).packet.model() == current.model()
                &&& m.payload@ == ser_server_message(ServerMessageModel::Snapshot(current.model()))
                &&& m.delivery == DeliveryRequirement::Unreliable
            } else {
                &&& final(snapshot).packet == old(snapshot).packet
                &&& m.payload@ == ser_server_message(
                    ServerMessageModel::Delta(
                        spec_delta(current.model(), old(snapshot).packet.model()),
                    ),
                )
                &&& m.delivery == DeliveryRequirement::ReliableSequenced(Some(1u8))
            })
        }),
{
    controller.tick();
    if controller.is_snapshot_frame() {
        let payload = serialize_snapshot_message(&current);
        let m = Message::new(
            copy_addrs(&clients.clients),
            &payload,
            DeliveryRequirement::Unreliable,
        );
        transport.push_message(m);
        snapshot.packet = current;
    } else {
        let d = current.delta(&snapshot.packet);
        let payload = serialize_delta_message(&d);
        let m = Message::new(
            copy_addrs(&clients.clients),
            &payload,
            DeliveryRequirement::ReliableSequenced(Some(1u8)),
        );
        transport.push_message(m);
    }
    proof {
        assert(final(transport).messages@.take(old(transport).messages@.len() as int) =~= old(
            transport,
        ).messages@);
    }
}

} // verus!
