use netcarrier::bitmask::NetworkBitmask;
use netcarrier::components::{ClientState, Color, Position, Rectangle};
use netcarrier::packet::{NetworkDeltaPacket, NetworkPacket};
use netcarrier::transport::{
    deserialize_client_input, serialize_client_input, NetworkClientAck, NetworkClientState,
    ServerMessage,
};

fn sample_snapshot() -> NetworkPacket {
    let mut positions: NetworkBitmask<Position> = NetworkBitmask::new();
    positions.add_value(Position::new(-7, 2000));
    positions.push_absent();
    let mut colors: NetworkBitmask<Color> = NetworkBitmask::new();
    colors.push_absent();
    colors.add_value(Color::new(9, 8, 7, 255));
    let mut rectangles: NetworkBitmask<Rectangle> = NetworkBitmask::new();
    rectangles.add_value(Rectangle::new(20, 20));
    rectangles.add_value(Rectangle::new(1, 2));
    NetworkPacket {
        frame: 3,
        entities_id: vec![1, 2],
        positions,
        colors,
        rectangles,
    }
}

#[test]
fn snapshot_serialize_roundtrip() {
    let s = sample_snapshot();
    let bytes = s.serialize();
    let (back, end) = NetworkPacket::read_snapshot(&bytes, 0).expect("own bytes parse");
    assert_eq!(end, bytes.len());
    assert_eq!(back, s);
}

#[test]
fn server_message_snapshot_roundtrip() {
    let s = sample_snapshot();
    let msg = ServerMessage::Snapshot(s);
    let bytes = msg.serialize();
    assert_eq!(bytes[0], 0u8);
    match ServerMessage::deserialize(&bytes) {
        Some(ServerMessage::Snapshot(back)) => assert_eq!(back, sample_snapshot()),
        _ => panic!("a serialized snapshot message must parse as one"),
    }
}

#[test]
fn server_message_delta_roundtrip() {
    let s0 = sample_snapshot();
    let mut s1 = sample_snapshot();
    s1.frame = 4;
    s1.positions.values[0] = Position::new(-6, 2001);
    let d = s1.delta(&s0);
    let bytes = ServerMessage::Delta(d).serialize();
    assert_eq!(bytes[0], 1u8);
    match ServerMessage::deserialize(&bytes) {
        Some(ServerMessage::Delta(back)) => {
            assert_eq!(back, s1.delta(&s0));
            let r = s0.try_apply(&back).unwrap();
            assert_eq!(r, s1);
        },
        _ => panic!("a serialized delta message must parse as one"),
    }
}

#[test]
fn client_state_record_roundtrip() {
    let record = NetworkClientState {
        ack: NetworkClientAck { last_frame: 7, last_snapshot_frame: 3 },
        state: vec![1, 2, 3, 250],
    };
    let bytes = record.serialize();
    let back = NetworkClientState::deserialize(&bytes).expect("own bytes parse");
    assert_eq!(back.ack, record.ack);
    assert_eq!(back.state, record.state);
}

#[test]
fn client_input_roundtrip() {
    let cs = ClientState { up: true, down: false, left: false, right: true };
    let bytes = serialize_client_input(&cs);
    assert_eq!(bytes, vec![1u8, 0, 0, 1]);
    assert_eq!(deserialize_client_input(&bytes), Some(cs));
}

#[test]
fn malformed_client_input_is_rejected() {
    // A direction flag must be 0 or 1 on the wire.
    assert_eq!(deserialize_client_input(&vec![2u8, 0, 0, 0]), None);
    // Truncated.
    assert_eq!(deserialize_client_input(&vec![1u8, 0, 0]), None);
    // Bytes left over.
    assert_eq!(deserialize_client_input(&vec![1u8, 0, 0, 0, 0]), None);
}

#[test]
fn malformed_server_message_is_rejected() {
    assert!(ServerMessage::deserialize(&vec![]).is_none());
    // Unknown tag.
    assert!(ServerMessage::deserialize(&vec![9u8]).is_none());
    // A snapshot tag with nothing behind it.
    assert!(ServerMessage::deserialize(&vec![0u8, 1, 2]).is_none());
    // Trailing garbage after a well-formed snapshot.
    let mut bytes = ServerMessage::Snapshot(sample_snapshot()).serialize();
    bytes.push(0u8);
    assert!(ServerMessage::deserialize(&bytes).is_none());
}

#[test]
fn tampered_mask_bit_is_rejected() {
    let s = sample_snapshot();
    let mut bytes = ServerMessage::Snapshot(s).serialize();
    // tag(1) + frame(4) + id count(4) + two ids(8) + mask count(4):
    // byte 21 is the first presence bit, which must be 0 or 1.
    assert_eq!(bytes[21], 1u8);
    bytes[21] = 2u8;
    assert!(ServerMessage::deserialize(&bytes).is_none());
}

#[test]
fn incoherent_mask_length_is_rejected() {
    // One entity id, but a position mask covering no slot at all.
    let s = NetworkPacket {
        frame: 0,
        entities_id: vec![1],
        positions: NetworkBitmask::new(),
        colors: NetworkBitmask::new(),
        rectangles: NetworkBitmask::new(),
    };
    let bytes = ServerMessage::Snapshot(s).serialize();
    assert!(ServerMessage::deserialize(&bytes).is_none());
}

#[test]
fn overlapping_delta_masks_are_rejected() {
    let mut positions: NetworkBitmask<Position> = NetworkBitmask::new();
    positions.add_value(Position::new(1, 1));
    let mut delta_positions = NetworkBitmask::new();
    delta_positions.add_value(netcarrier::components::DeltaPosition { dx: 0, dy: 0 });
    let d = NetworkDeltaPacket {
        frame: 1,
        snapshot_frame: 0,
        entities_id: vec![1],
        positions,
        colors: NetworkBitmask::new(),
        rectangles: NetworkBitmask::new(),
        delta_positions,
        delta_colors: NetworkBitmask::new(),
        delta_rectangles: NetworkBitmask::new(),
    };
    // The same slot claims both a full value and a diff; and the
    // color and rectangle masks do not cover the id list either.
    let bytes = ServerMessage::Delta(d).serialize();
    assert!(ServerMessage::deserialize(&bytes).is_none());
}
