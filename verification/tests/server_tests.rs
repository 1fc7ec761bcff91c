use netcarrier::bitmask::NetworkBitmask;
use netcarrier::components::{ClientState, Position};
use netcarrier::controller::NetworkController;
use netcarrier::packet::NetworkPacket;
use netcarrier::server::{update_server, GameSnapshot};
use netcarrier::transport::{
    client_send_network_system, serialize_client_input, server_handle_event,
    server_send_network_system, update_client, ClientList, DeliveryRequirement, Message, NetAddr,
    NetworkClientAck, NetworkClientState, NetworkEvent, ServerMessage, SocketEvent,
    TransportResource,
};

fn addr(port: u16) -> NetAddr {
    NetAddr { ip: 0x7f000001, port }
}

fn snapshot_at(frame: u32) -> NetworkPacket {
    let mut positions: NetworkBitmask<Position> = NetworkBitmask::new();
    positions.add_value(Position::new(100, 100));
    NetworkPacket {
        frame,
        entities_id: vec![1],
        positions,
        colors: {
            let mut m = NetworkBitmask::new();
            m.push_absent();
            m
        },
        rectangles: {
            let mut m = NetworkBitmask::new();
            m.push_absent();
            m
        },
    }
}

#[test]
fn controller_snapshot_cadence() {
    let mut c = NetworkController::new(40);
    assert!(c.is_snapshot_frame());
    c.tick();
    assert_eq!(c.frame, 1);
    assert!(!c.is_snapshot_frame());
    for _ in 0..39 {
        c.tick();
    }
    assert_eq!(c.frame, 40);
    assert!(c.is_snapshot_frame());
}

#[test]
fn update_server_emits_snapshot_on_cadence() {
    let mut controller = NetworkController::new(40);
    controller.frame = 39;
    let mut reference = GameSnapshot { packet: snapshot_at(0) };
    let mut clients = ClientList::default();
    clients.note_connect(addr(1000));
    let mut transport = TransportResource::default();

    update_server(&mut controller, &mut reference, snapshot_at(40), &clients, &mut transport);
    assert_eq!(controller.frame, 40);
    assert_eq!(transport.messages.len(), 1);
    let m = &transport.messages[0];
    assert_eq!(m.destination, vec![addr(1000)]);
    assert_eq!(m.delivery, DeliveryRequirement::Unreliable);
    assert_eq!(m.payload[0], 0u8);
    assert_eq!(reference.packet.frame, 40);
    match ServerMessage::deserialize(&m.payload) {
        Some(ServerMessage::Snapshot(s)) => assert_eq!(s, snapshot_at(40)),
        _ => panic!("a snapshot frame sends the full snapshot"),
    }
}

#[test]
fn update_server_emits_delta_between_snapshots() {
    let mut controller = NetworkController::new(40);
    let mut reference = GameSnapshot { packet: snapshot_at(0) };
    let mut clients = ClientList::default();
    clients.note_connect(addr(1000));
    let mut transport = TransportResource::default();

    let mut current = snapshot_at(1);
    current.positions.values[0] = Position::new(101, 100);
    update_server(&mut controller, &mut reference, current, &clients, &mut transport);
    assert_eq!(controller.frame, 1);
    let m = &transport.messages[0];
    assert_eq!(m.delivery, DeliveryRequirement::ReliableSequenced(Some(1)));
    assert_eq!(m.payload[0], 1u8);
    assert_eq!(reference.packet.frame, 0);
    match ServerMessage::deserialize(&m.payload) {
        Some(ServerMessage::Delta(d)) => {
            assert_eq!(d.frame, 1);
            assert_eq!(d.snapshot_frame, 0);
            let rebuilt = reference.packet.try_apply(&d).unwrap();
            assert_eq!(rebuilt.positions.values[0], Position::new(101, 100));
        },
        _ => panic!("a non-snapshot frame sends a delta"),
    }
}

#[test]
fn client_send_wraps_payload_with_ack() {
    let mut transport = TransportResource::default();
    let payload = vec![9u8, 9];
    transport.push_message(Message::new(
        vec![addr(1), addr(2)],
        &payload,
        DeliveryRequirement::Unreliable,
    ));
    let ack = NetworkClientAck { last_frame: 7, last_snapshot_frame: 3 };
    let out = client_send_network_system(&mut transport, &ack);
    assert_eq!(transport.messages.len(), 0);
    assert_eq!(out.len(), 2);
    assert_eq!(out[0].destination, addr(1));
    assert_eq!(out[1].destination, addr(2));
    for d in &out {
        let record = NetworkClientState::deserialize(&d.payload).expect("wrapped record parses");
        assert_eq!(record.ack, ack);
        assert_eq!(record.state, vec![9u8, 9]);
    }
}

#[test]
fn server_send_passes_payload_through() {
    let mut transport = TransportResource::default();
    transport.push_message(Message::new(
        vec![addr(1)],
        &vec![5u8, 6, 7],
        DeliveryRequirement::Reliable,
    ));
    let out = server_send_network_system(&mut transport);
    assert_eq!(out.len(), 1);
    assert_eq!(out[0].payload, vec![5u8, 6, 7]);
    assert_eq!(out[0].delivery, DeliveryRequirement::Reliable);
    assert_eq!(transport.messages.len(), 0);
}

#[test]
fn connect_is_idempotent() {
    let mut clients = ClientList::default();
    let e1 = server_handle_event(&mut clients, SocketEvent::Connect(addr(5)));
    assert!(matches!(e1, Some(NetworkEvent::Connect(a)) if a == addr(5)));
    let e2 = server_handle_event(&mut clients, SocketEvent::Connect(addr(5)));
    assert!(matches!(e2, Some(NetworkEvent::Connect(_))));
    assert_eq!(clients.clients.len(), 1);
}

#[test]
fn timeout_removes_client() {
    let mut clients = ClientList::default();
    clients.note_connect(addr(5));
    clients.note_connect(addr(6));
    let e = server_handle_event(&mut clients, SocketEvent::Timeout(addr(5)));
    assert!(matches!(e, Some(NetworkEvent::Disconnect(a)) if a == addr(5)));
    assert_eq!(clients.clients, vec![addr(6)]);
}

#[test]
fn malformed_client_datagram_is_dropped() {
    let mut clients = ClientList::default();
    let e = server_handle_event(&mut clients, SocketEvent::Packet(addr(5), vec![1, 2, 3]));
    assert!(e.is_none());
}

#[test]
fn good_client_datagram_becomes_message_event() {
    let mut clients = ClientList::default();
    let record = NetworkClientState {
        ack: NetworkClientAck { last_frame: 1, last_snapshot_frame: 0 },
        state: vec![42u8],
    };
    let bytes = record.serialize();
    let e = server_handle_event(&mut clients, SocketEvent::Packet(addr(5), bytes));
    match e {
        Some(NetworkEvent::Message(a, s)) => {
            assert_eq!(a, addr(5));
            assert_eq!(s, vec![42u8]);
        },
        _ => panic!("a parsable client record becomes a message event"),
    }
}

#[test]
fn update_client_sends_input_to_server() {
    let mut transport = TransportResource::default();
    let ack = NetworkClientAck { last_frame: 2, last_snapshot_frame: 2 };
    let input = ClientState { up: true, down: false, left: true, right: false };
    let out = update_client(&mut transport, &input, addr(9), &ack);
    assert_eq!(out.len(), 1);
    assert_eq!(out[0].destination, addr(9));
    assert_eq!(out[0].delivery, DeliveryRequirement::Unreliable);
    let record = NetworkClientState::deserialize(&out[0].payload).unwrap();
    assert_eq!(record.ack, ack);
    assert_eq!(record.state, serialize_client_input(&input));
}
