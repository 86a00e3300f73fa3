use kademlia::node_id::NodeId;
use std::cmp::Ordering;

fn with_byte(index: usize, value: u8) -> NodeId {
    let mut id = NodeId { id: [0; 20] };
    id.id[index] = value;
    id
}

#[test]
fn ord_and_index() {
    let zero = NodeId { id: [0; 20] };

    let mut one = NodeId { id: [0; 20] };
    one.id[19] = 1;

    let mut two = NodeId { id: [0; 20] };
    two.id[19] = 2;

    let mut three = NodeId { id: [0; 20] };
    three.id[19] = 3;

    let mut really_big = NodeId { id: [0; 20] };
    really_big.id[0] = 2;

    let distance_to_one = zero.xor(&one);
    let distance_to_two = zero.xor(&two);
    let distance_to_three = zero.xor(&three);
    let distance_to_really_big = zero.xor(&really_big);

    assert!(distance_to_two > distance_to_one);
    assert!(distance_to_really_big > distance_to_two);
    assert_ne!(distance_to_one.bucket_index(), distance_to_two.bucket_index());
    assert_eq!(distance_to_three.bucket_index(), distance_to_two.bucket_index());
}

#[test]
fn test_node_id_from_string() {
    let mut id = NodeId { id: [0; 20] };
    id.id[19] = 1;

    let serialized = id.to_hex_string();
    assert_eq!(serialized, "1");

    let deserialized = NodeId::from_hex_string(&serialized);
    assert_eq!(deserialized, Some(id));

    for _ in 0..100 {
        let id = NodeId::random().unwrap();
        let serialized = id.to_hex_string();

        let deserialized = NodeId::from_hex_string(&serialized);
        assert_eq!(deserialized, Some(id));
    }
}

#[test]
fn xor_with_itself_is_zero() {
    let a = NodeId::from_bytes([0x5a; 20]);
    let d = a.xor(&a);
    assert_eq!(d.0.id, [0u8; 20]);
    assert_eq!(d.bucket_index(), 0);
}

#[test]
fn xor_is_symmetric_and_bytewise() {
    let mut a = NodeId::from_bytes([0xf0; 20]);
    a.id[3] = 0x12;
    let b = NodeId::from_bytes([0x3c; 20]);
    let ab = a.xor(&b);
    let ba = b.xor(&a);
    assert!(ab == ba);
    assert_eq!(ab.0.id[0], 0xcc);
    assert_eq!(ab.0.id[3], 0x12 ^ 0x3c);
    assert_eq!(ab.compare(&ba), Ordering::Equal);
}

#[test]
fn bucket_index_is_position_of_top_bit() {
    let zero = NodeId { id: [0; 20] };
    for k in 0..160usize {
        let top = with_byte(19 - k / 8, 1u8 << (k % 8));
        assert_eq!(zero.xor(&top).bucket_index(), k);
        // Lower bits do not change the index.
        let mut full = top;
        for byte in (19 - k / 8 + 1)..20 {
            full.id[byte] = 0xff;
        }
        full.id[19 - k / 8] |= (1u8 << (k % 8)) - 1;
        assert_eq!(zero.xor(&full).bucket_index(), k);
    }
    assert_eq!(zero.xor(&with_byte(0, 0xff)).bucket_index(), 159);
    assert_eq!(zero.xor(&with_byte(0, 0x01)).bucket_index(), 152);
}

#[test]
fn bucket_index_is_within_range() {
    for b in 0..=255u8 {
        let a = NodeId::from_bytes([b; 20]);
        let c = NodeId::from_bytes([b.wrapping_mul(7).wrapping_add(3); 20]);
        assert!(a.xor(&c).bucket_index() < 160);
    }
}

#[test]
fn distance_order_is_lexicographic() {
    let zero = NodeId { id: [0; 20] };
    let low = zero.xor(&with_byte(19, 0xff));
    let high = zero.xor(&with_byte(0, 0x01));
    assert_eq!(low.compare(&high), Ordering::Less);
    assert_eq!(high.compare(&low), Ordering::Greater);
    assert_eq!(high.compare(&high), Ordering::Equal);
    assert_eq!(low.partial_cmp(&high), Some(Ordering::Less));
    assert!(low < high);
    assert!(high >= high);
    assert_eq!(low.cmp(&high), Ordering::Less);
}

#[test]
fn hex_of_zero_is_one_digit() {
    let zero = NodeId { id: [0; 20] };
    assert_eq!(zero.to_hex_string(), "0");
    assert_eq!(NodeId::from_hex_string("0"), Some(zero));
}

#[test]
fn hex_drops_leading_zeros() {
    assert_eq!(with_byte(0, 0x0a).to_hex_string(), format!("a{}", "0".repeat(38)));
    assert_eq!(with_byte(0, 0xab).to_hex_string(), format!("ab{}", "0".repeat(38)));
    assert_eq!(with_byte(1, 0x05).to_hex_string(), format!("5{}", "0".repeat(36)));
    assert_eq!(with_byte(19, 0x10).to_hex_string(), "10");
    assert_eq!(NodeId::from_bytes([0xff; 20]).to_hex_string(), "f".repeat(40));
}

#[test]
fn hex_parse_right_aligns() {
    let id = NodeId::from_hex_string("100").unwrap();
    assert_eq!(id, with_byte(18, 1));
    let id = NodeId::from_hex_string("FF").unwrap();
    assert_eq!(id, with_byte(19, 0xff));
    let id = NodeId::from_hex_string("aBc").unwrap();
    let mut expected = with_byte(18, 0x0a);
    expected.id[19] = 0xbc;
    assert_eq!(id, expected);
    assert_eq!(
        NodeId::from_hex_string(&"f".repeat(40)),
        Some(NodeId::from_bytes([0xff; 20]))
    );
}

#[test]
fn hex_parse_rejects() {
    assert_eq!(NodeId::from_hex_string(""), None);
    assert_eq!(NodeId::from_hex_string(&"1".repeat(41)), None);
    assert_eq!(NodeId::from_hex_string("12g"), None);
    assert_eq!(NodeId::from_hex_string("1 2"), None);
    assert_eq!(NodeId::from_hex_string("\u{e9}"), None);
}

#[test]
fn hex_round_trips() {
    let mut bytes = [0u8; 20];
    for i in 0..20 {
        bytes[i] = (i as u8).wrapping_mul(37).wrapping_add(11);
    }
    for start in 0..20 {
        let mut b = bytes;
        for byte in b.iter_mut().take(start) {
            *byte = 0;
        }
        let id = NodeId::from_bytes(b);
        assert_eq!(NodeId::from_hex_string(&id.to_hex_string()), Some(id));
    }
}
