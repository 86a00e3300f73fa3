use kademlia::address::PeerAddress;
use kademlia::node_id::NodeId;
use kademlia::routing::RoutingTable;

fn addr(port: u16) -> PeerAddress {
    PeerAddress::V4 { octets: [10, 0, 0, 1], port }
}

fn id_with(index: usize, value: u8) -> NodeId {
    let mut id = NodeId { id: [0; 20] };
    id.id[index] = value;
    id
}

fn bucket_len(table: &RoutingTable, i: usize) -> usize {
    table.buckets()[i].entries().len()
}

#[test]
fn table_has_one_bucket_per_bit() {
    let table = RoutingTable::new(NodeId { id: [0; 20] });
    assert_eq!(table.buckets().len(), 160);
}

#[test]
fn note_ignores_owner_and_places_by_bucket_index() {
    let owner = NodeId { id: [0; 20] };
    let mut table = RoutingTable::new(owner);
    table.note(&owner, &addr(1));
    assert!(table.buckets().iter().all(|b| b.entries().is_empty()));
    table.note(&id_with(19, 1), &addr(2));
    table.note(&id_with(19, 3), &addr(3));
    table.note(&id_with(0, 0x80), &addr(4));
    assert_eq!(bucket_len(&table, 0), 1);
    assert_eq!(bucket_len(&table, 1), 1);
    assert_eq!(bucket_len(&table, 159), 1);
}

#[test]
fn closest_k_sorts_by_distance_to_target() {
    let owner = NodeId { id: [0; 20] };
    let mut table = RoutingTable::new(owner);
    // Four peers in bucket 7 (distance 128..255 from the owner).
    for v in [0x80u8, 0x81, 0xfe, 0xc0] {
        table.note(&id_with(19, v), &addr(v as u16));
    }
    let target = id_with(19, 0xfc);
    let found = table.closest_k(&target, &vec![]);
    let got: Vec<u8> = found.iter().map(|e| e.id().id[19]).collect();
    // Distances to 0xfc: 0xfe -> 0x02, 0xc0 -> 0x3c, 0x80 -> 0x7c, 0x81 -> 0x7d.
    assert_eq!(got, vec![0xfe, 0xc0, 0x80, 0x81]);
}

#[test]
fn closest_k_excludes_and_truncates() {
    let owner = NodeId { id: [0; 20] };
    let mut table = RoutingTable::new(owner);
    // Peers 1..=20: bucket 3 (8..=15) overflows and keeps 10..=15.
    for v in 1..=20u8 {
        table.note(&id_with(19, v), &addr(v as u16));
    }
    assert_eq!(bucket_len(&table, 3), 6);
    let target = id_with(19, 1);
    let all = table.closest_k(&target, &vec![]);
    let got: Vec<u8> = all.iter().map(|e| e.id().id[19]).collect();
    assert_eq!(got, vec![1, 3, 2, 5, 4, 7]);
    let excluded: Vec<NodeId> = all.iter().take(2).map(|e| *e.id()).collect();
    let rest = table.closest_k(&target, &excluded);
    let got: Vec<u8> = rest.iter().map(|e| e.id().id[19]).collect();
    assert_eq!(got, vec![2, 5, 4, 7, 6, 11]);
    assert!(rest.iter().all(|e| !excluded.contains(e.id())));
    for w in rest.windows(2) {
        assert!(w[0].id().xor(&target) < w[1].id().xor(&target));
    }
}

#[test]
fn closest_k_spreads_to_neighbour_buckets() {
    let owner = NodeId { id: [0; 20] };
    let mut table = RoutingTable::new(owner);
    // One peer in each of the buckets 3, 5 and 6.
    table.note(&id_with(19, 0x08), &addr(1));
    table.note(&id_with(19, 0x20), &addr(2));
    table.note(&id_with(19, 0x40), &addr(3));
    // The target's home bucket is 5; buckets 4 and 6, then 3 and 7, are taken in.
    let target = id_with(19, 0x21);
    let found = table.closest_k(&target, &vec![]);
    let got: Vec<u8> = found.iter().map(|e| e.id().id[19]).collect();
    assert_eq!(got, vec![0x20, 0x08, 0x40]);
}

#[test]
fn closest_k_of_empty_table_is_empty() {
    let table = RoutingTable::new(id_with(4, 4));
    assert!(table.closest_k(&id_with(19, 1), &vec![]).is_empty());
}
