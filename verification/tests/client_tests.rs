use netcarrier::bitmask::NetworkBitmask;
use netcarrier::client::{client_handle_event, handle_server_message, JitBuffer, SnapshotCache};
use netcarrier::components::Position;
use netcarrier::packet::NetworkPacket;
use netcarrier::transport::{NetAddr, NetworkClientAck, ServerMessage, SocketEvent};

fn frame_packet(frame: u32) -> NetworkPacket {
    let mut positions: NetworkBitmask<Position> = NetworkBitmask::new();
    positions.add_value(Position::new(frame as i32, 0));
    NetworkPacket {
        frame,
        entities_id: vec![1],
        positions,
        colors: {
            let mut m = NetworkBitmask::new();
            m.push_absent();
            m
        },
        rectangles: {
            let mut m = NetworkBitmask::new();
            m.push_absent();
            m
        },
    }
}

#[test]
fn reorder_absorption() {
    let mut jit = JitBuffer::new();
    for f in [3u32, 1, 2, 4, 5] {
        jit.push_frame(frame_packet(f));
    }
    // With a minimum fill of three, draining yields the frames in
    // ascending order: 1, 2, 3 while the buffer stays full enough,
    // then 4 and 5 as the stream ends.
    assert_eq!(jit.try_pop(3).unwrap().frame, 1);
    assert_eq!(jit.try_pop(3).unwrap().frame, 2);
    assert_eq!(jit.try_pop(3).unwrap().frame, 3);
    assert!(jit.try_pop(3).is_none());
    assert_eq!(jit.try_pop(1).unwrap().frame, 4);
    assert_eq!(jit.try_pop(1).unwrap().frame, 5);
    assert!(jit.try_pop(1).is_none());
}

#[test]
fn jitter_respects_min_fill() {
    let mut jit = JitBuffer::new();
    jit.push_frame(frame_packet(1));
    jit.push_frame(frame_packet(2));
    assert!(jit.try_pop(3).is_none());
    assert_eq!(jit.len(), 2);
}

#[test]
fn ack_advances_on_snapshot_and_delta() {
    let mut jit = JitBuffer::new();
    let mut cache = SnapshotCache::new(2);
    let mut ack = NetworkClientAck { last_frame: 0, last_snapshot_frame: 0 };

    handle_server_message(&mut jit, &mut cache, &mut ack, ServerMessage::Snapshot(frame_packet(5)));
    assert_eq!(ack, NetworkClientAck { last_frame: 5, last_snapshot_frame: 5 });

    let base = frame_packet(5);
    let mut next = frame_packet(5);
    next.frame = 6;
    let d = next.delta(&base);
    handle_server_message(&mut jit, &mut cache, &mut ack, ServerMessage::Delta(d));
    assert_eq!(ack, NetworkClientAck { last_frame: 6, last_snapshot_frame: 5 });
}

#[test]
fn out_of_order_delta_is_dropped() {
    let mut jit = JitBuffer::new();
    let mut cache = SnapshotCache::new(2);
    let mut ack = NetworkClientAck { last_frame: 0, last_snapshot_frame: 0 };

    // A delta for frame 5 arrives before the snapshot it refers to:
    // it is dropped, though the ack still advances.
    let base = frame_packet(0);
    let mut s5 = frame_packet(0);
    s5.frame = 5;
    let d5 = s5.delta(&base);
    handle_server_message(&mut jit, &mut cache, &mut ack, ServerMessage::Delta(d5));
    assert_eq!(jit.len(), 0);
    assert_eq!(ack.last_frame, 5);

    // The snapshot then arrives; the dropped delta is not applied
    // retroactively.
    handle_server_message(&mut jit, &mut cache, &mut ack, ServerMessage::Snapshot(frame_packet(0)));
    assert_eq!(jit.len(), 1);

    // A later delta against frame 0 applies cleanly.
    let mut s6 = frame_packet(0);
    s6.frame = 6;
    let d6 = s6.delta(&base);
    handle_server_message(&mut jit, &mut cache, &mut ack, ServerMessage::Delta(d6));
    assert_eq!(jit.len(), 2);
    assert_eq!(jit.try_pop(1).unwrap().frame, 0);
    assert_eq!(jit.try_pop(1).unwrap().frame, 6);
}

#[test]
fn snapshot_cache_evicts_oldest() {
    let mut cache = SnapshotCache::new(2);
    cache.insert_snapshot(frame_packet(0));
    cache.insert_snapshot(frame_packet(40));
    cache.insert_snapshot(frame_packet(80));
    assert!(cache.find_frame(0).is_none());
    assert!(cache.find_frame(40).is_some());
    assert!(cache.find_frame(80).is_some());
}

#[test]
fn client_admits_only_the_server() {
    let mut jit = JitBuffer::new();
    let mut cache = SnapshotCache::new(2);
    let mut ack = NetworkClientAck { last_frame: 0, last_snapshot_frame: 0 };
    let server = NetAddr { ip: 1, port: 1 };
    let stranger = NetAddr { ip: 2, port: 2 };

    let bytes = ServerMessage::Snapshot(frame_packet(1)).serialize();
    // A datagram from anywhere but the server is ignored whole.
    assert!(!client_handle_event(
        &mut jit,
        &mut cache,
        &mut ack,
        SocketEvent::Packet(stranger, bytes.clone()),
        server,
    ));
    assert_eq!(jit.len(), 0);
    assert_eq!(ack.last_frame, 0);
    // A malformed datagram from the server is dropped.
    assert!(!client_handle_event(
        &mut jit,
        &mut cache,
        &mut ack,
        SocketEvent::Packet(server, vec![0u8, 9]),
        server,
    ));
    assert_eq!(jit.len(), 0);
    // A well-formed one is taken in.
    assert!(client_handle_event(
        &mut jit,
        &mut cache,
        &mut ack,
        SocketEvent::Packet(server, bytes),
        server,
    ));
    assert_eq!(jit.len(), 1);
    assert_eq!(ack.last_frame, 1);
}

#[test]
fn stale_snapshot_never_lowers_ack() {
    let mut jit = JitBuffer::new();
    let mut cache = SnapshotCache::new(2);
    let mut ack = NetworkClientAck { last_frame: 0, last_snapshot_frame: 0 };

    handle_server_message(&mut jit, &mut cache, &mut ack, ServerMessage::Snapshot(frame_packet(10)));
    assert_eq!(ack, NetworkClientAck { last_frame: 10, last_snapshot_frame: 10 });

    // A snapshot reordered on the unreliable channel arrives late:
    // both counters stand.
    handle_server_message(&mut jit, &mut cache, &mut ack, ServerMessage::Snapshot(frame_packet(5)));
    assert_eq!(ack, NetworkClientAck { last_frame: 10, last_snapshot_frame: 10 });

    // So does a late delta.
    let base = frame_packet(10);
    let mut old_frame = frame_packet(10);
    old_frame.frame = 7;
    let d = old_frame.delta(&base);
    handle_server_message(&mut jit, &mut cache, &mut ack, ServerMessage::Delta(d));
    assert_eq!(ack, NetworkClientAck { last_frame: 10, last_snapshot_frame: 10 });
}
