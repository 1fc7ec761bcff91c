use netcarrier::bitmask::NetworkBitmask;
use netcarrier::components::{Color, Position, Rectangle};
use netcarrier::packet::NetworkPacket;
use netcarrier::world::{
    storage_get, LocalWorld, NetworkIdAllocator, NetworkIdMapping,
};

fn server_world() -> LocalWorld {
    let mut w = LocalWorld::new();
    let e1 = w.create_entity();
    let e2 = w.create_entity();
    w.net_ids.push((e1, 1));
    w.net_ids.push((e2, 2));
    w.positions.push((e1, Position::new(100, 100)));
    w.positions.push((e2, Position::new(50, 60)));
    w.colors.push((e1, Color::new(10, 20, 30, 255)));
    w.rectangles.push((e2, Rectangle::new(20, 20)));
    w
}

#[test]
fn allocator_never_reuses_ids() {
    let mut alloc = NetworkIdAllocator::new();
    assert_eq!(alloc.next_id().id, 0);
    assert_eq!(alloc.next_id().id, 1);
    assert_eq!(alloc.next_id().id, 2);
}

#[test]
fn snapshot_gathers_components_in_id_order() {
    let w = server_world();
    let s = NetworkPacket::new(&w, 7);
    assert_eq!(s.frame, 7);
    assert_eq!(s.entities_id, vec![1, 2]);
    assert_eq!(s.positions.values, vec![Position::new(100, 100), Position::new(50, 60)]);
    // Entity 2 has no color: its bit stays clear.
    assert_eq!(s.colors.values, vec![Color::new(10, 20, 30, 255)]);
    assert_eq!(s.colors.entities_mask.get(0), Some(true));
    assert_eq!(s.colors.entities_mask.get(1), Some(false));
    assert_eq!(s.rectangles.values, vec![Rectangle::new(20, 20)]);
}

#[test]
fn apply_creates_missing_entities() {
    let w = server_world();
    let s = NetworkPacket::new(&w, 0);

    let mut client = LocalWorld::new();
    let mut mapping = NetworkIdMapping::new();
    assert!(s.apply_state(&mut client, &mut mapping));

    let e1 = mapping.get(1).expect("NetId 1 is bound after the snapshot");
    let e2 = mapping.get(2).expect("NetId 2 is bound after the snapshot");
    assert_ne!(e1, e2);
    assert_eq!(storage_get(&client.positions, e1), Some(Position::new(100, 100)));
    assert_eq!(storage_get(&client.positions, e2), Some(Position::new(50, 60)));
    assert_eq!(storage_get(&client.colors, e1), Some(Color::new(10, 20, 30, 255)));
    assert_eq!(storage_get(&client.colors, e2), None);
    assert_eq!(storage_get(&client.rectangles, e2), Some(Rectangle::new(20, 20)));
}

#[test]
fn new_entity_mid_stream() {
    // The snapshot at frame 0 knows only NetId 1.
    let mut positions: NetworkBitmask<Position> = NetworkBitmask::new();
    positions.add_value(Position::new(0, 0));
    let s0 = NetworkPacket {
        frame: 0,
        entities_id: vec![1],
        positions,
        colors: {
            let mut m = NetworkBitmask::new();
            m.push_absent();
            m
        },
        rectangles: {
            let mut m = NetworkBitmask::new();
            m.push_absent();
            m
        },
    };
    // Frame 1 brings NetId 2 with a full value.
    let mut s1 = NetworkPacket {
        frame: 1,
        entities_id: vec![1, 2],
        positions: NetworkBitmask::new(),
        colors: NetworkBitmask::new(),
        rectangles: NetworkBitmask::new(),
    };
    s1.positions.add_value(Position::new(0, 0));
    s1.positions.add_value(Position::new(5, 5));
    s1.colors.push_absent();
    s1.colors.push_absent();
    s1.rectangles.push_absent();
    s1.rectangles.push_absent();

    let d = s1.delta(&s0);
    assert_eq!(d.positions.values, vec![Position::new(5, 5)]);

    let mut client = LocalWorld::new();
    let mut mapping = NetworkIdMapping::new();
    assert!(s0.apply_state(&mut client, &mut mapping));
    let rebuilt = s0.try_apply(&d).unwrap();
    assert!(rebuilt.apply_state(&mut client, &mut mapping));

    let e2 = mapping.get(2).expect("the newcomer is bound");
    assert_eq!(storage_get(&client.positions, e2), Some(Position::new(5, 5)));
}

#[test]
fn deleted_entity_is_removed() {
    let w = server_world();
    let s0 = NetworkPacket::new(&w, 0);

    let mut client = LocalWorld::new();
    let mut mapping = NetworkIdMapping::new();
    assert!(s0.apply_state(&mut client, &mut mapping));
    let e2 = mapping.get(2).unwrap();

    // By frame 40 the entity behind NetId 2 is gone on the server.
    let mut w2 = server_world();
    let gone = w2.net_ids[1].0;
    w2.delete_entity(gone);
    let s40 = NetworkPacket::new(&w2, 40);
    assert_eq!(s40.entities_id, vec![1]);
    assert!(s40.apply_state(&mut client, &mut mapping));

    assert!(mapping.get(2).is_none());
    assert!(!client.entities.contains(&e2));
    assert_eq!(storage_get(&client.positions, e2), None);
    assert!(mapping.get(1).is_some());
}

#[test]
fn apply_overwrites_existing_components() {
    let w = server_world();
    let s0 = NetworkPacket::new(&w, 0);
    let mut client = LocalWorld::new();
    let mut mapping = NetworkIdMapping::new();
    assert!(s0.apply_state(&mut client, &mut mapping));

    let mut w2 = server_world();
    w2.positions[0].1 = Position::new(101, 99);
    let s1 = NetworkPacket::new(&w2, 1);
    assert!(s1.apply_state(&mut client, &mut mapping));

    let e1 = mapping.get(1).unwrap();
    assert_eq!(storage_get(&client.positions, e1), Some(Position::new(101, 99)));
}

#[test]
fn apply_rejects_repeated_net_ids() {
    let mut positions: NetworkBitmask<Position> = NetworkBitmask::new();
    positions.push_absent();
    positions.push_absent();
    let s = NetworkPacket {
        frame: 0,
        entities_id: vec![1, 1],
        positions,
        colors: {
            let mut m = NetworkBitmask::new();
            m.push_absent();
            m.push_absent();
            m
        },
        rectangles: {
            let mut m = NetworkBitmask::new();
            m.push_absent();
            m.push_absent();
            m
        },
    };
    let mut client = LocalWorld::new();
    let mut mapping = NetworkIdMapping::new();
    assert!(!s.apply_state(&mut client, &mut mapping));
    assert_eq!(client.entities.len(), 0);
    assert_eq!(mapping.entries.len(), 0);
}
