//! The transport layer's verified core: the outbound message queue
//! and its send passes, the typed events the receive pipeline
//! produces, the connected-clients list, and the wire forms of the
//! client-to-server records and of the tagged server message.

use vstd::bytes::spec_u32_to_le_bytes;
use vstd::prelude::*;

use crate::components::ClientState;
use crate::packet::{DeltaModel, NetworkDeltaPacket, NetworkPacket, SnapshotModel};
use crate::wire::{
    de_delta, de_seq, de_snapshot, delta_serializable, lemma_de_ser_delta, lemma_de_ser_seq,
    lemma_de_ser_snapshot, lemma_subrange_split, read_seq, ser_delta, ser_seq, ser_snapshot,
    snapshot_serializable, write_seq, Wire,
};

verus! {

/// A network address as plain values: an IPv4 address and a port.
#[derive(Clone, Copy, PartialEq, Eq, Structural, Debug, Hash)]
pub struct NetAddr {
    pub ip: u32,
    pub port: u16,
}

/// The delivery mode requested for one outbound message, with an
/// optional stream id for the sequenced and ordered modes.
#[derive(Clone, Copy, PartialEq, Eq, Debug)]
pub enum DeliveryRequirement {
    Unreliable,
    UnreliableSequenced(Option<u8>),
    Reliable,
    ReliableSequenced(Option<u8>),
    ReliableOrdered(Option<u8>),
}

/// One outbound message: a payload bound for a set of destinations
/// under one delivery mode.
pub struct Message {
    pub destination: Vec<NetAddr>,
    pub payload: Vec<u8>,
    pub delivery: DeliveryRequirement,
}

/// Copy a byte vector.
pub fn copy_bytes(v: &Vec<u8>) -> (r: Vec<u8>)
    ensures
        r@ == v@,
{
    let mut r: Vec<u8> = Vec::new();
    let n = v.len();
    for i in 0..n
        invariant
            n == v@.len(),
            r@ =~= v@.take(i as int),
    {
        r.push(v[i]);
        proof {
            assert(r@ =~= v@.take(i as int + 1));
        }
    }
    proof {
        assert(r@ =~= v@);
    }
    r
}

impl Message {
    pub fn new(destination: Vec<NetAddr>, payload: &Vec<u8>, delivery: DeliveryRequirement) -> (r:
        Message)
        ensures
            r.destination@ == destination@,
            r.payload@ == payload@,
            r.delivery == delivery,
    {
        Message { destination, payload: copy_bytes(payload), delivery }
    }
}

/// The queue of outbound messages a send pass drains.
pub struct TransportResource {
    pub messages: Vec<Message>,
}

impl Default for TransportResource {
    /// An empty queue.
    fn default() -> (r: TransportResource)
        ensures
            r.messages@.len() == 0,
    {
        TransportResource { messages: Vec::new() }
    }
}

impl TransportResource {
    /// Enqueue one outbound message.
    pub fn push_message(&mut self, m: Message)
        ensures
            final(self).messages@ == old(self).messages@.push(m),
    {
        self.messages.push(m);
    }
}

/// One datagram ready for the socket: a single destination, the bytes
/// to send, and the delivery mode.
pub struct Datagram {
    pub destination: NetAddr,
    pub payload: Vec<u8>,
    pub delivery: DeliveryRequirement,
}

/// A raw socket event, as plain values.
pub enum SocketEvent {
    Packet(NetAddr, Vec<u8>),
    Connect(NetAddr),
    Timeout(NetAddr),
}

/// A typed network event produced by the receive pipeline.
pub enum NetworkEvent {
    Message(NetAddr, Vec<u8>),
    Connect(NetAddr),
    Disconnect(NetAddr),
}

/// The client's report of the newest frame and newest snapshot frame
/// it has observed, sent on every client-to-server message.
#[derive(Clone, Copy, PartialEq, Eq, Structural, Debug)]
pub struct NetworkClientAck {
    pub last_frame: u32,
    pub last_snapshot_frame: u32,
}

/// The record every client-to-server datagram carries: the client's
/// ack and the opaque application payload.
pub struct NetworkClientState {
    pub ack: NetworkClientAck,
    pub state: Vec<u8>,
}

/// The bytes of a client-to-server record.
pub open spec fn ser_client_state(ack: NetworkClientAck, state: Seq<u8>) -> Seq<u8> {
    spec_u32_to_le_bytes(ack.last_frame) + spec_u32_to_le_bytes(ack.last_snapshot_frame)
        + spec_u32_to_le_bytes(state.len() as u32) + ser_seq::<u8>(state)
}

/// What parsing a whole client-to-server datagram yields. Bytes left
/// over after the record make the datagram malformed.
pub open spec fn de_client_state(b: Seq<u8>) -> Option<(NetworkClientAck, Seq<u8>)> {
    match u32::deser(b, 0) {
        None => None,
        Some((last_frame, i1)) => match u32::deser(b, i1) {
            None => None,
            Some((last_snapshot_frame, i2)) => match u32::deser(b, i2) {
                None => None,
                Some((n, i3)) => match de_seq::<u8>(b, i3, n as nat) {
                    None => None,
                    Some((state, i4)) => if i4 == b.len() {
                        Some((NetworkClientAck { last_frame, last_snapshot_frame }, state))
                    } else {
                        None
                    },
                },
            },
        },
    }
}

/// Client-to-server record round-trip: parsing a serialized record
/// yields the record back.
pub proof fn lemma_client_state_wire_roundtrip(ack: NetworkClientAck, state: Seq<u8>)
    requires
        state.len() <= u32::MAX,
    ensures
        de_client_state(ser_client_state(ack, state)) == Some((ack, state)),
{
    vstd::bytes::lemma_auto_spec_u32_to_from_le_bytes();
    let b = ser_client_state(ack, state);
    let s1 = spec_u32_to_le_bytes(ack.last_frame);
    let s2 = spec_u32_to_le_bytes(ack.last_snapshot_frame);
    let s3 = spec_u32_to_le_bytes(state.len() as u32);
    let s4 = ser_seq::<u8>(state);
    assert(b.subrange(0, b.len() as int) =~= b);
    lemma_subrange_split(b, 0, s1 + s2 + s3, s4);
    lemma_subrange_split(b, 0, s1 + s2, s3);
    lemma_subrange_split(b, 0, s1, s2);
    ack.last_frame.lemma_wire_roundtrip(b, 0);
    ack.last_snapshot_frame.lemma_wire_roundtrip(b, 4int);
    (state.len() as u32).lemma_wire_roundtrip(b, 8int);
    lemma_de_ser_seq::<u8>(state, b, 12int);
}

impl NetworkClientState {
    /// Serialize this record for one datagram.
    pub fn serialize(&self) -> (out: Vec<u8>)
        requires
            self.state@.len() <= u32::MAX,
        ensures
            out@ == ser_client_state(self.ack, self.state@),
    {
        let mut out: Vec<u8> = Vec::new();
        self.ack.last_frame.write(&mut out);
        self.ack.last_snapshot_frame.write(&mut out);
        let n32: u32 = self.state.len() as u32;
        n32.write(&mut out);
        write_seq::<u8>(&self.state, &mut out);
        proof {
            assert(out@ =~= ser_client_state(self.ack, self.state@));
        }
        out
    }

    /// Parse one whole client-to-server datagram, or nothing when it
    /// is malformed.
    pub fn deserialize(b: &Vec<u8>) -> (r: Option<NetworkClientState>)
        ensures
            (match de_client_state(b@) {
                Some((ack, state)) => r is Some && r.unwrap().ack == ack && r.unwrap().state@
                    == state,
                None => r is None,
            }),
    {
        let (last_frame, i1) = match u32::read(b, 0) {
            None => {
                return None;
            },
            Some(p) => p,
        };
        let (last_snapshot_frame, i2) = match u32::read(b, i1) {
            None => {
                return None;
            },
            Some(p) => p,
        };
        let (n32, i3) = match u32::read(b, i2) {
            None => {
                return None;
            },
            Some(p) => p,
        };
        proof {
            u32::lemma_deser_bounds(b@, i2 as int);
        }
        let (state, i4) = match read_seq::<u8>(b, i3, n32 as usize) {
            None => {
                return None;
            },
            Some(p) => p,
        };
        if i4 != b.len() {
            return None;
        }
        Some(
            NetworkClientState {
                ack: NetworkClientAck { last_frame, last_snapshot_frame },
                state,
            },
        )
    }
}

/// The tagged server-to-client message: a self-contained snapshot or
/// a delta against an earlier snapshot.
pub enum ServerMessage {
    Snapshot(NetworkPacket),
    Delta(NetworkDeltaPacket),
}

/// The mathematical content of a server message.
pub enum ServerMessageModel {
    Snapshot(SnapshotModel),
    Delta(DeltaModel),
}

impl ServerMessage {
    pub open spec fn wf(&self) -> bool {
        match self {
            ServerMessage::Snapshot(s) => s.wf(),
            ServerMessage::Delta(d) => d.wf(),
        }
    }

    pub open spec fn model(&self) -> ServerMessageModel {
        match self {
            ServerMessage::Snapshot(s) => ServerMessageModel::Snapshot(s.model()),
            ServerMessage::Delta(d) => ServerMessageModel::Delta(d.model()),
        }
    }
}

/// The bytes of a server message: one tag byte, then the packet.
pub open spec fn ser_server_message(m: ServerMessageModel) -> Seq<u8> {
    match m {
        ServerMessageModel::Snapshot(s) => seq![0u8] + ser_snapshot(s),
        ServerMessageModel::Delta(d) => seq![1u8] + ser_delta(d),
    }
}

/// What parsing a whole server-to-client datagram yields. An unknown
/// tag or bytes left over make the datagram malformed.
pub open spec fn de_server_message(b: Seq<u8>) -> Option<ServerMessageModel> {
    if b.len() < 1 {
        None
    } else if b[0] == 0u8 {
        match de_snapshot(b, 1) {
            Some((s, j)) => if j == b.len() {
                Some(ServerMessageModel::Snapshot(s))
            } else {
                None
            },
            None => None,
        }
    } else if b[0] == 1u8 {
        match de_delta(b, 1) {
            Some((d, j)) => if j == b.len() {
                Some(ServerMessageModel::Delta(d))
            } else {
                None
            },
            None => None,
        }
    } else {
        None
    }
}

/// Whether a server message's counts fit their wire fields.
pub open spec fn server_message_serializable(m: ServerMessageModel) -> bool {
    match m {
        ServerMessageModel::Snapshot(s) => snapshot_serializable(s),
        ServerMessageModel::Delta(d) => delta_serializable(d),
    }
}

/// Whether a server message's masks cover its entity-id list (and,
/// for a delta, stay disjoint per field).
pub open spec fn server_message_coherent(m: ServerMessageModel) -> bool {
    match m {
        ServerMessageModel::Snapshot(s) => crate::wire::snapshot_coherent(s),
        ServerMessageModel::Delta(d) => crate::wire::delta_coherent(d),
    }
}

/// Server message round-trip: parsing a serialized message yields the
/// message back whole.
pub proof fn lemma_server_message_wire_roundtrip(m: ServerMessageModel)
    requires
        server_message_serializable(m),
        server_message_coherent(m),
    ensures
        de_server_message(ser_server_message(m)) == Some(m),
{
    let b = ser_server_message(m);
    match m {
        ServerMessageModel::Snapshot(s) => {
            assert(b[0] == 0u8);
            assert(b.subrange(1, b.len() as int) =~= ser_snapshot(s));
            lemma_de_ser_snapshot(s, b, 1);
        },
        ServerMessageModel::Delta(d) => {
            assert(b[0] == 1u8);
            assert(b.subrange(1, b.len() as int) =~= ser_delta(d));
            lemma_de_ser_delta(d, b, 1);
        },
    }
}

impl ServerMessage {
    /// Serialize this message for one datagram.
    pub fn serialize(&self) -> (out: Vec<u8>)
        requires
            self.wf(),
            (match self {
                ServerMessage::Snapshot(s) => s.entities_id@.len() <= u32::MAX,
                ServerMessage::Delta(d) => d.entities_id@.len() <= u32::MAX,
            }),
        ensures
            out@ == ser_server_message(self.model()),
    {
        let mut out: Vec<u8> = Vec::new();
        match self {
            ServerMessage::Snapshot(s) => {
                out.push(0u8);
                let mut body = s.serialize();
                out.append(&mut body);
                proof {
                    assert(out@ =~= ser_server_message(self.model()));
                }
            },
            ServerMessage::Delta(d) => {
                out.push(1u8);
                let mut body = d.serialize();
                out.append(&mut body);
                proof {
                    assert(out@ =~= ser_server_message(self.model()));
                }
            },
        }
        out
    }

    /// Parse one whole server-to-client datagram, or nothing when it
    /// is malformed.
    pub fn deserialize(b: &Vec<u8>) -> (r: Option<ServerMessage>)
        ensures
            (match de_server_message(b@) {
                Some(m) => {
                    &&& r is Some
                    &&& r.unwrap().wf()
                    &&& r.unwrap().model() == m
                },
                None => r is None,
            }),
    {
        if b.len() < 1 {
            return None;
        }
        let tag = b[0];
        if tag == 0u8 {
            match NetworkPacket::read_snapshot(b, 1) {
                Some((s, j)) => {
                    if j == b.len() {
                        Some(ServerMessage::Snapshot(s))
                    } else {
                        None
                    }
                },
                None => None,
            }
        } else if tag == 1u8 {
            match NetworkDeltaPacket::read_delta(b, 1) {
                Some((d, j)) => {
                    if j == b.len() {
                        Some(ServerMessage::Delta(d))
                    } else {
                        None
                    }
                },
                None => None,
            }
        } else {
            None
        }
    }
}

} // verus!

verus! {

/// The list of currently connected clients, maintained by the
/// server's receive pipeline.
pub struct ClientList {
    pub clients: Vec<NetAddr>,
}

impl Default for ClientList {
    /// No client connected yet.
    fn default() -> (r: ClientList)
        ensures
            r.clients@.len() == 0,
    {
        ClientList { clients: Vec::new() }
    }
}

/// `s` with every occurrence of `addr` removed, order kept.
pub open spec fn without_addr(s: Seq<NetAddr>, addr: NetAddr) -> Seq<NetAddr>
    decreases s.len(),
{
    if s.len() == 0 {
        Seq::<NetAddr>::empty()
    } else {
        without_addr(s.drop_last(), addr) + (if s.last() == addr {
            Seq::<NetAddr>::empty()
        } else {
            seq![s.last()]
        })
    }
}

impl ClientList {
    /// Record a connect: add the address unless it is already listed.
    /// Duplicate connects are absorbed.
    pub fn note_connect(&mut self, addr: NetAddr) -> (added: bool)
        ensures
            added == !old(self).clients@.contains(addr),
            final(self).clients@ == (if old(self).clients@.contains(addr) {
                old(self).clients@
            } else {
                old(self).clients@.push(addr)
            }),
    {
        let n = self.clients.len();
        for i in 0..n
            invariant
                n == self.clients@.len(),
                self == old(self),
                forall|q: int| 0 <= q < i ==> self.clients@[q] != addr,
        {
            if self.clients[i].ip == addr.ip && self.clients[i].port == addr.port {
                proof {
                    assert(self.clients@[i as int] == addr);
                }
                return false;
            }
        }
        proof {
            assert(!old(self).clients@.contains(addr));
        }
        self.clients.push(addr);
        true
    }

    /// Record a timeout: drop every entry for the address.
    pub fn note_timeout(&mut self, addr: NetAddr)
        ensures
            final(self).clients@ == without_addr(old(self).clients@, addr),
    {
        let mut kept: Vec<NetAddr> = Vec::new();
        let n = self.clients.len();
        for i in 0..n
            invariant
                n == self.clients@.len(),
                self == old(self),
                kept@ =~= without_addr(self.clients@.take(i as int), addr),
        {
            let c = self.clients[i];
            if !(c.ip == addr.ip && c.port == addr.port) {
                kept.push(c);
            }
            proof {
                assert(self.clients@.take(i as int + 1).drop_last() =~= self.clients@.take(
                    i as int,
                ));
                assert(kept@ =~= without_addr(self.clients@.take(i as int + 1), addr));
            }
        }
        proof {
            assert(self.clients@.take(n as int) =~= self.clients@);
        }
        self.clients = kept;
    }
}

/// Translate one raw socket event on the server side into a typed
/// network event, maintaining the connected-clients list. A datagram
/// that does not parse as a client record is dropped — the receive
/// pipeline carries on.
pub fn server_handle_event(clients: &mut ClientList, event: SocketEvent) -> (r: Option<
    NetworkEvent,
>)
    ensures
        (match event {
            SocketEvent::Packet(addr, bytes) => {
                &&& *final(clients) == *old(clients)
                &&& (match de_client_state(bytes@) {
                    Some((ack, state)) => r matches Some(NetworkEvent::Message(a, s)) && a == addr
                        && s@ == state,
                    None => r is None,
                })
            },
            SocketEvent::Connect(addr) => {
                &&& final(clients).clients@ == (if old(clients).clients@.contains(addr) {
                    old(clients).clients@
                } else {
                    old(clients).clients@.push(addr)
                })
                &&& r matches Some(NetworkEvent::Connect(a)) && a == addr
            },
            SocketEvent::Timeout(addr) => {
                &&& final(clients).clients@ == without_addr(old(clients).clients@, addr)
                &&& r matches Some(NetworkEvent::Disconnect(a)) && a == addr
            },
        }),
{
    match event {
        SocketEvent::Packet(addr, bytes) => {
            match NetworkClientState::deserialize(&bytes) {
                Some(ncs) => Some(NetworkEvent::Message(addr, ncs.state)),
                None => None,
            }
        },
        SocketEvent::Connect(addr) => {
            clients.note_connect(addr);
            Some(NetworkEvent::Connect(addr))
        },
        SocketEvent::Timeout(addr) => {
            clients.note_timeout(addr);
            Some(NetworkEvent::Disconnect(addr))
        },
    }
}

/// The datagram triple an outbound datagram amounts to.
pub open spec fn dgs_model(s: Seq<Datagram>) -> Seq<(NetAddr, Seq<u8>, DeliveryRequirement)> {
    Seq::new(s.len(), |k: int| (s[k].destination, s[k].payload@, s[k].delivery))
}

/// The datagrams one client-side message expands to: one per
/// destination, each carrying the client record that wraps the
/// payload together with the current ack.
pub open spec fn client_datagrams_of(m: Message, ack: NetworkClientAck) -> Seq<
    (NetAddr, Seq<u8>, DeliveryRequirement),
> {
    Seq::new(
        m.destination@.len(),
        |k: int| (m.destination@[k], ser_client_state(ack, m.payload@), m.delivery),
    )
}

/// The datagrams a whole client-side send pass emits, queue order kept.
pub open spec fn client_datagrams(msgs: Seq<Message>, ack: NetworkClientAck) -> Seq<
    (NetAddr, Seq<u8>, DeliveryRequirement),
>
    decreases msgs.len(),
{
    if msgs.len() == 0 {
        Seq::empty()
    } else {
        client_datagrams_of(msgs[0], ack) + client_datagrams(msgs.skip(1), ack)
    }
}

/// Every queued payload fits the length field of the client record.
pub open spec fn payloads_fit(msgs: Seq<Message>) -> bool {
    forall|i: int| 0 <= i < msgs.len() ==> (#[trigger] msgs[i].payload)@.len() <= u32::MAX
}

/// The client's send pass: drain the queue, wrapping each payload in
/// a client record carrying the current ack, and emit one datagram
/// per message and destination.
pub fn client_send_network_system(transport: &mut TransportResource, ack: &NetworkClientAck) -> (out:
    Vec<Datagram>)
    requires
        payloads_fit(old(transport).messages@),
    ensures
        final(transport).messages@.len() == 0,
        dgs_model(out@) == client_datagrams(old(transport).messages@, *ack),
{
    let ghost msgs = transport.messages@;
    let ghost target = client_datagrams(msgs, *ack);
    let mut out: Vec<Datagram> = Vec::new();
    let n = transport.messages.len();
    proof {
        assert(msgs.skip(0) =~= msgs);
        assert(dgs_model(out@) =~= Seq::<(NetAddr, Seq<u8>, DeliveryRequirement)>::empty());
        assert(dgs_model(out@) + client_datagrams(msgs.skip(0), *ack) =~= target);
    }
    for i in 0..n
        invariant
            transport == old(transport),
            n == msgs.len(),
            msgs == transport.messages@,
            payloads_fit(msgs),
            target == client_datagrams(msgs, *ack),
            target =~= dgs_model(out@) + client_datagrams(msgs.skip(i as int), *ack),
    {
        let msg = &transport.messages[i];
        let record = NetworkClientState { ack: *ack, state: copy_bytes(&msg.payload) };
        let bytes = record.serialize();
        let m = msg.destination.len();
        proof {
            assert(msgs.skip(i as int)[0] == msgs[i as int]);
            assert(msgs.skip(i as int).skip(1) =~= msgs.skip(i as int + 1));
        }
        for k in 0..m
            invariant
                transport == old(transport),
                msgs == transport.messages@,
                0 <= i < msgs.len(),
                m == msgs[i as int].destination@.len(),
                bytes@ == ser_client_state(*ack, msgs[i as int].payload@),
                target =~= dgs_model(out@) + client_datagrams_of(msgs[i as int], *ack).skip(
                    k as int,
                ) + client_datagrams(msgs.skip(i as int + 1), *ack),
        {
            let d = Datagram {
                destination: transport.messages[i].destination[k],
                payload: copy_bytes(&bytes),
                delivery: transport.messages[i].delivery,
            };
            let ghost prev = out@;
            out.push(d);
            proof {
                assert(dgs_model(out@) =~= dgs_model(prev).push(
                    (d.destination, d.payload@, d.delivery),
                ));
                assert(client_datagrams_of(msgs[i as int], *ack).skip(k as int)[0] == (
                    d.destination,
                    d.payload@,
                    d.delivery,
                ));
                assert(client_datagrams_of(msgs[i as int], *ack).skip(k as int).skip(1)
                    =~= client_datagrams_of(msgs[i as int], *ack).skip(k as int + 1));
                assert(target =~= dgs_model(out@) + client_datagrams_of(
                    msgs[i as int],
                    *ack,
                ).skip(k as int + 1) + client_datagrams(msgs.skip(i as int + 1), *ack));
            }
        }
        proof {
            assert(client_datagrams_of(msgs[i as int], *ack).skip(m as int)
                =~= Seq::<(NetAddr, Seq<u8>, DeliveryRequirement)>::empty());
        }
    }
    proof {
        assert(msgs.skip(n as int) =~= Seq::<Message>::empty());
        assert(dgs_model(out@) =~= target);
    }
    transport.messages = Vec::new();
    out
}

/// The datagrams one server-side message expands to: one per
/// destination, the payload passed through as it stands.
pub open spec fn server_datagrams_of(m: Message) -> Seq<(NetAddr, Seq<u8>, DeliveryRequirement)> {
    Seq::new(m.destination@.len(), |k: int| (m.destination@[k], m.payload@, m.delivery))
}

/// The datagrams a whole server-side send pass emits, queue order kept.
pub open spec fn server_datagrams(msgs: Seq<Message>) -> Seq<
    (NetAddr, Seq<u8>, DeliveryRequirement),
>
    decreases msgs.len(),
{
    if msgs.len() == 0 {
        Seq::empty()
    } else {
        server_datagrams_of(msgs[0]) + server_datagrams(msgs.skip(1))
    }
}

/// The server's send pass: drain the queue and emit one datagram per
/// message and destination, payloads passed through unchanged.
pub fn server_send_network_system(transport: &mut TransportResource) -> (out: Vec<Datagram>)
    ensures
        final(transport).messages@.len() == 0,
        dgs_model(out@) == server_datagrams(old(transport).messages@),
{
    let ghost msgs = transport.messages@;
    let ghost target = server_datagrams(msgs);
    let mut out: Vec<Datagram> = Vec::new();
    let n = transport.messages.len();
    proof {
        assert(msgs.skip(0) =~= msgs);
        assert(dgs_model(out@) =~= Seq::<(NetAddr, Seq<u8>, DeliveryRequirement)>::empty());
        assert(dgs_model(out@) + server_datagrams(msgs.skip(0)) =~= target);
    }
    for i in 0..n
        invariant
            transport == old(transport),
            n == msgs.len(),
            msgs == transport.messages@,
            target == server_datagrams(msgs),
            target =~= dgs_model(out@) + server_datagrams(msgs.skip(i as int)),
    {
        let m = transport.messages[i].destination.len();
        proof {
            assert(msgs.skip(i as int)[0] == msgs[i as int]);
            assert(msgs.skip(i as int).skip(1) =~= msgs.skip(i as int + 1));
        }
        for k in 0..m
            invariant
                transport == old(transport),
                msgs == transport.messages@,
                0 <= i < msgs.len(),
                m == msgs[i as int].destination@.len(),
                target =~= dgs_model(out@) + server_datagrams_of(msgs[i as int]).skip(k as int)
                    + server_datagrams(msgs.skip(i as int + 1)),
        {
            let d = Datagram {
                destination: transport.messages[i].destination[k],
                payload: copy_bytes(&transport.messages[i].payload),
                delivery: transport.messages[i].delivery,
            };
            let ghost prev = out@;
            out.push(d);
            proof {
                assert(dgs_model(out@) =~= dgs_model(prev).push(
                    (d.destination, d.payload@, d.delivery),
                ));
                assert(server_datagrams_of(msgs[i as int]).skip(k as int)[0] == (
                    d.destination,
                    d.payload@,
                    d.delivery,
                ));
                assert(server_datagrams_of(msgs[i as int]).skip(k as int).skip(1)
                    =~= server_datagrams_of(msgs[i as int]).skip(k as int + 1));
                assert(target =~= dgs_model(out@) + server_datagrams_of(msgs[i as int]).skip(
                    k as int + 1,
                ) + server_datagrams(msgs.skip(i as int + 1)));
            }
        }
        proof {
            assert(server_datagrams_of(msgs[i as int]).skip(m as int)
                =~= Seq::<(NetAddr, Seq<u8>, DeliveryRequirement)>::empty());
        }
    }
    proof {
        assert(msgs.skip(n as int) =~= Seq::<Message>::empty());
        assert(dgs_model(out@) =~= target);
    }
    transport.messages = Vec::new();
    out
}

} // verus!

verus! {

/// The bytes of a client input record: one byte per direction flag.
pub open spec fn ser_client_input(cs: ClientState) -> Seq<u8> {
    cs.up.ser() + cs.down.ser() + cs.left.ser() + cs.right.ser()
}

/// What parsing a whole client input record yields.
pub open spec fn de_client_input(b: Seq<u8>) -> Option<ClientState> {
    match bool::deser(b, 0) {
        None => None,
        Some((up, i1)) => match bool::deser(b, i1) {
            None => None,
            Some((down, i2)) => match bool::deser(b, i2) {
                None => None,
                Some((left, i3)) => match bool::deser(b, i3) {
                    None => None,
                    Some((right, i4)) => if i4 == b.len() {
                        Some(ClientState { up, down, left, right })
                    } else {
                        None
                    },
                },
            },
        },
    }
}

/// Client input round-trip: parsing a serialized input record yields
/// the record back.
pub proof fn lemma_client_input_wire_roundtrip(cs: ClientState)
    ensures
        de_client_input(ser_client_input(cs)) == Some(cs),
{
    let b = ser_client_input(cs);
    assert(b.len() == 4);
    assert(b[0] == cs.up.ser()[0] && b[1] == cs.down.ser()[0] && b[2] == cs.left.ser()[0] && b[3]
        == cs.right.ser()[0]);
}

/// Serialize one client input record.
pub fn serialize_client_input(cs: &ClientState) -> (out: Vec<u8>)
    ensures
        out@ == ser_client_input(*cs),
{
    let mut out: Vec<u8> = Vec::new();
    cs.up.write(&mut out);
    cs.down.write(&mut out);
    cs.left.write(&mut out);
    cs.right.write(&mut out);
    proof {
        assert(out@ =~= ser_client_input(*cs));
    }
    out
}

/// Parse one whole client input record, or nothing when it is
/// malformed.
pub fn deserialize_client_input(b: &Vec<u8>) -> (r: Option<ClientState>)
    ensures
        r == de_client_input(b@),
{
    let (up, i1) = match bool::read(b, 0) {
        None => {
            return None;
        },
        Some(p) => p,
    };
    let (down, i2) = match bool::read(b, i1) {
        None => {
            return None;
        },
        Some(p) => p,
    };
    let (left, i3) = match bool::read(b, i2) {
        None => {
            return None;
        },
        Some(p) => p,
    };
    let (right, i4) = match bool::read(b, i3) {
        None => {
            return None;
        },
        Some(p) => p,
    };
    if i4 != b.len() {
        return None;
    }
    Some(ClientState { up, down, left, right })
}

/// Appending a message to the queue appends its datagrams.
pub proof fn lemma_client_datagrams_push(msgs: Seq<Message>, m: Message, ack: NetworkClientAck)
    ensures
        client_datagrams(msgs.push(m), ack) == client_datagrams(msgs, ack)
            + client_datagrams_of(m, ack),
    decreases msgs.len(),
{
    if msgs.len() == 0 {
        assert(msgs.push(m)[0] == m);
        assert(msgs.push(m).skip(1) =~= Seq::<Message>::empty());
        assert(client_datagrams(msgs.push(m), ack) == client_datagrams_of(m, ack)
            + client_datagrams(Seq::<Message>::empty(), ack));
        assert(client_datagrams(Seq::<Message>::empty(), ack) =~= Seq::<
            (NetAddr, Seq<u8>, DeliveryRequirement),
        >::empty());
        assert(client_datagrams(msgs.push(m), ack) =~= client_datagrams(msgs, ack)
            + client_datagrams_of(m, ack));
    } else {
        assert(msgs.push(m)[0] == msgs[0]);
        assert(msgs.push(m).skip(1) =~= msgs.skip(1).push(m));
        lemma_client_datagrams_push(msgs.skip(1), m, ack);
        assert(client_datagrams(msgs.push(m), ack) =~= client_datagrams(msgs, ack)
            + client_datagrams_of(m, ack));
    }
}

/// One client tick's sending work: enqueue the current input state
/// for the server, then run the send pass, wrapping every queued
/// payload with the current ack. Returns the datagrams to submit.
pub fn update_client(
    transport: &mut TransportResource,
    client_state: &ClientState,
    server: NetAddr,
    ack: &NetworkClientAck,
) -> (out: Vec<Datagram>)
    requires
        payloads_fit(old(transport).messages@),
    ensures
        final(transport).messages@.len() == 0,
        dgs_model(out@) == client_datagrams(old(transport).messages@, *ack) + seq![
            (
                server,
                ser_client_state(*ack, ser_client_input(*client_state)),
                DeliveryRequirement::Unreliable,
            ),
        ],
{
    let payload = serialize_client_input(client_state);
    let mut destination: Vec<NetAddr> = Vec::new();
    destination.push(server);
    let m = Message::new(destination, &payload, DeliveryRequirement::Unreliable);
    let ghost msgs = transport.messages@;
    let ghost mval = m;
    transport.push_message(m);
    let out = client_send_network_system(transport, ack);
    proof {
        lemma_client_datagrams_push(msgs, mval, *ack);
        assert(client_datagrams_of(mval, *ack) =~= seq![
            (
                server,
                ser_client_state(*ack, ser_client_input(*client_state)),
                DeliveryRequirement::Unreliable,
            ),
        ]);
    }
    out
}

} // verus!
