use netcarrier::bitmask::NetworkBitmask;
use netcarrier::components::{Color, DeltaPosition, Position, Rectangle};
use netcarrier::packet::{NetworkPacket, NetworkDeltaPacket};

fn empty_field<T: Copy>(len: usize) -> NetworkBitmask<T> {
    let mut m = NetworkBitmask::new();
    let mut i = 0;
    while i < len {
        m.push_absent();
        i += 1;
    }
    m
}

fn setup_snapshot() -> NetworkPacket {
    let mut positions: NetworkBitmask<Position> = NetworkBitmask::new();
    positions.add_value(Position::new(0, 0));
    NetworkPacket {
        frame: 0,
        entities_id: vec![1],
        positions,
        colors: empty_field(1),
        rectangles: empty_field(1),
    }
}

#[test]
fn has_delta_component() {
    let snapshot = setup_snapshot();
    let mut state = setup_snapshot();
    state.positions.values[0] = Position::new(1, 1);

    let delta_state = state.delta(&snapshot);
    assert_eq!(delta_state.delta_positions.values.len(), 1);
    assert_eq!(delta_state.positions.values.len(), 0);
}

#[test]
fn has_new_entity() {
    let snapshot = setup_snapshot();
    let mut state = setup_snapshot();
    state.entities_id = vec![2];

    let delta_state = state.delta(&snapshot);
    assert_eq!(delta_state.delta_positions.values.len(), 0);
    assert_eq!(delta_state.positions.values.len(), 1);
}

#[test]
fn has_new_and_delta_entity() {
    let snapshot = setup_snapshot();
    let mut state = setup_snapshot();
    state.entities_id.push(2);
    state.positions.add_value(Position::new(1, 1));
    state.colors.push_absent();
    state.rectangles.push_absent();

    let delta_state = state.delta(&snapshot);
    assert_eq!(delta_state.delta_positions.values.len(), 1);
    assert_eq!(delta_state.positions.values.len(), 1);
}

#[test]
fn apply_delta_state() {
    let snapshot = setup_snapshot();
    let mut state = setup_snapshot();
    state.entities_id.push(2);
    state.positions.add_value(Position::new(1, 1));
    state.colors.push_absent();
    state.rectangles.push_absent();

    let delta_state = state.delta(&snapshot);
    let applied_state = snapshot.apply(&delta_state);
    assert_eq!(applied_state, state);
}

fn two_entity_snapshot(frame: u32) -> NetworkPacket {
    let mut positions: NetworkBitmask<Position> = NetworkBitmask::new();
    positions.add_value(Position::new(10, 20));
    positions.add_value(Position::new(-5, 7));
    let mut colors: NetworkBitmask<Color> = NetworkBitmask::new();
    colors.add_value(Color::new(1, 2, 3, 255));
    colors.push_absent();
    let mut rectangles: NetworkBitmask<Rectangle> = NetworkBitmask::new();
    rectangles.push_absent();
    rectangles.add_value(Rectangle::new(20, 20));
    NetworkPacket {
        frame,
        entities_id: vec![1, 2],
        positions,
        colors,
        rectangles,
    }
}

fn count_bits(mask: &bit_vec::BitVec<u32>) -> usize {
    mask.iter().filter(|b| *b).count()
}

fn check_integrity(d: &NetworkDeltaPacket) {
    assert_eq!(count_bits(&d.positions.entities_mask), d.positions.values.len());
    assert_eq!(count_bits(&d.colors.entities_mask), d.colors.values.len());
    assert_eq!(count_bits(&d.rectangles.entities_mask), d.rectangles.values.len());
    assert_eq!(count_bits(&d.delta_positions.entities_mask), d.delta_positions.values.len());
    assert_eq!(count_bits(&d.delta_colors.entities_mask), d.delta_colors.values.len());
    assert_eq!(count_bits(&d.delta_rectangles.entities_mask), d.delta_rectangles.values.len());
}

#[test]
fn delta_roundtrip_with_overlap() {
    let s0 = two_entity_snapshot(0);
    let mut s1 = two_entity_snapshot(1);
    s1.positions.values[0] = Position::new(11, 21);
    s1.entities_id.push(3);
    s1.positions.add_value(Position::new(0, 0));
    s1.colors.push_absent();
    s1.rectangles.add_value(Rectangle::new(5, 5));

    let d = s1.delta(&s0);
    check_integrity(&d);
    let r = s0.try_apply(&d).expect("a generated delta always applies to its base");
    assert_eq!(r, s1);
}

#[test]
fn full_replacement_for_new_net_id() {
    let s0 = setup_snapshot();
    let mut s1 = setup_snapshot();
    s1.frame = 1;
    s1.entities_id = vec![1, 9];
    s1.positions.add_value(Position::new(42, 43));
    s1.colors.push_absent();
    s1.rectangles.push_absent();

    let d = s1.delta(&s0);
    // NetId 9 is new to the snapshot: its full value rides the new-mask.
    assert_eq!(d.positions.values, vec![Position::new(42, 43)]);
    let r = s0.try_apply(&d).unwrap();
    assert_eq!(r, s1);
}

#[test]
fn delta_fallback_when_diff_unrepresentable() {
    let mut s0 = setup_snapshot();
    s0.rectangles = {
        let mut m = NetworkBitmask::new();
        m.add_value(Rectangle::new(20, 20));
        m
    };
    let mut s1 = setup_snapshot();
    s1.frame = 1;
    s1.rectangles = {
        let mut m = NetworkBitmask::new();
        m.add_value(Rectangle::new(30, 30));
        m
    };

    let d = s1.delta(&s0);
    // A rectangle's extent changed: no compact diff represents that,
    // so the full value is sent.
    assert_eq!(d.rectangles.values, vec![Rectangle::new(30, 30)]);
    assert_eq!(d.delta_rectangles.values.len(), 0);
    let r = s0.try_apply(&d).unwrap();
    assert_eq!(r, s1);
}

#[test]
fn overflow_falls_back_to_full_value() {
    let s0 = setup_snapshot();
    let mut s1 = setup_snapshot();
    s1.frame = 1;
    // A move of 200 does not fit the signed byte of the compact diff.
    s1.positions.values[0] = Position::new(200, 0);

    let d = s1.delta(&s0);
    assert_eq!(d.delta_positions.values.len(), 0);
    assert_eq!(d.positions.values, vec![Position::new(200, 0)]);
    let r = s0.try_apply(&d).unwrap();
    assert_eq!(r, s1);
}

#[test]
fn single_entity_no_change_zero_diff() {
    let s0 = setup_snapshot();
    let mut s1 = setup_snapshot();
    s1.frame = 1;

    let d = s1.delta(&s0);
    assert_eq!(d.positions.values.len(), 0);
    assert_eq!(d.delta_positions.values, vec![DeltaPosition { dx: 0, dy: 0 }]);
    let r = s0.try_apply(&d).unwrap();
    assert_eq!(r.positions.values, vec![Position::new(0, 0)]);
    assert_eq!(r, s1);
}

#[test]
fn delta_against_unknown_base_is_rejected() {
    let s0 = setup_snapshot();
    let mut s1 = setup_snapshot();
    s1.frame = 1;
    s1.positions.values[0] = Position::new(1, 1);
    let d = s1.delta(&s0);

    // A snapshot that never held NetId 1 cannot resolve the diff.
    let stranger = NetworkPacket {
        frame: 7,
        entities_id: vec![5],
        positions: empty_field(1),
        colors: empty_field(1),
        rectangles: empty_field(1),
    };
    assert!(stranger.try_apply(&d).is_none());
}
