use bit_vec::BitVec;
use netcarrier::bitmask::NetworkBitmask;

#[test]
fn join_network_bitmask() {
    let mut a_mask: BitVec<u32> = BitVec::from_elem(2, false);
    a_mask.set(0, true);
    let a_values: Vec<u32> = vec![0];
    let mut a = NetworkBitmask {
        entities_mask: a_mask,
        values: a_values,
    };

    let mut b_mask: BitVec<u32> = BitVec::from_elem(2, false);
    b_mask.set(1, true);
    let b_values: Vec<u32> = vec![1];
    let b = NetworkBitmask {
        entities_mask: b_mask,
        values: b_values,
    };

    a.join(&b);
    assert_eq!(a.entities_mask, BitVec::from_elem(2, true));
    assert_eq!(a.values, vec![0, 1]);
}

#[test]
fn join_prefers_self_values() {
    let mut a: NetworkBitmask<u32> = NetworkBitmask::new();
    a.add_value(10);
    a.push_absent();
    let mut b: NetworkBitmask<u32> = NetworkBitmask::new();
    b.add_value(99);
    b.add_value(20);
    a.join(&b);
    assert_eq!(a.values, vec![10, 20]);
    assert_eq!(a.entities_mask, BitVec::from_elem(2, true));
}

#[test]
fn masked_entities_id_in_mask_order() {
    let mut m: NetworkBitmask<u32> = NetworkBitmask::new();
    m.push_absent();
    m.add_value(7);
    m.push_absent();
    m.add_value(8);
    let ids = vec![100u32, 101, 102, 103];
    assert_eq!(m.masked_entities_id(&ids), vec![101, 103]);
}

#[test]
fn add_value_sets_trailing_bit() {
    let mut m: NetworkBitmask<u32> = NetworkBitmask::new();
    m.push_absent();
    m.add_value(5);
    assert_eq!(m.mask_len(), 2);
    assert_eq!(m.entities_mask.get(0), Some(false));
    assert_eq!(m.entities_mask.get(1), Some(true));
    assert_eq!(m.values, vec![5]);
}
