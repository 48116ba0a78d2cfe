use chord_ring::address::Address;
use chord_ring::entries::{find, find_index, set_key};
use chord_ring::table::Table;

fn node(id: i64) -> Address {
    Address::new(0x7f000001, 8000 + id, id)
}

#[test]
fn a_new_table_has_one_finger() {
    let t = Table::new(6, node(5));
    assert_eq!(t.previous(), node(5));
    assert_eq!(t.len(), 1);
    assert_eq!(t.finger(6), Some(node(5)));
    assert_eq!(t.finger(5), None);
    assert_eq!(t.finger_at(0), (6, node(5)));
}

#[test]
fn the_predecessor_can_be_replaced() {
    let mut t = Table::new(6, node(5));
    t.set_previous(node(4));
    assert_eq!(t.previous(), node(4));
    assert_eq!(t.finger(6), Some(node(5)));
}

#[test]
fn a_finger_is_added_or_replaced_in_place() {
    let mut t = Table::new(6, node(5));
    t.upsert_finger(7, node(5));
    t.upsert_finger(9, node(5));
    assert_eq!(t.len(), 3);
    t.upsert_finger(7, node(8));
    assert_eq!(t.len(), 3);
    assert_eq!(t.finger_at(0), (6, node(5)));
    assert_eq!(t.finger_at(1), (7, node(8)));
    assert_eq!(t.finger_at(2), (9, node(5)));
}

#[test]
fn get_node_gives_the_first_finger_below() {
    let mut t = Table::new(9, node(12));
    t.upsert_finger(6, node(8));
    t.upsert_finger(7, node(8));
    assert_eq!(t.get_node(10), Some((9, node(12))));
    assert_eq!(t.get_node(9), Some((6, node(8))));
    assert_eq!(t.get_node(7), Some((6, node(8))));
    assert_eq!(t.get_node(6), None);
}

#[test]
fn the_closest_owner_below_has_the_largest_id() {
    let mut t = Table::new(6, node(8));
    t.upsert_finger(7, node(8));
    t.upsert_finger(9, node(12));
    t.upsert_finger(13, node(20));
    t.upsert_finger(21, node(3));
    assert_eq!(t.closest_below(25), Some(node(20)));
    assert_eq!(t.closest_below(20), Some(node(12)));
    assert_eq!(t.closest_below(12), Some(node(8)));
    assert_eq!(t.closest_below(8), Some(node(3)));
    assert_eq!(t.closest_below(3), None);
}

#[test]
fn of_two_closest_owners_the_first_is_taken() {
    let first = Address::new(1, 1, 8);
    let second = Address::new(2, 2, 8);
    let mut t = Table::new(6, first);
    t.upsert_finger(7, second);
    assert_eq!(t.closest_below(9), Some(first));
}

#[test]
fn a_repair_hands_over_what_the_new_node_takes() {
    let mut t = Table::new(6, node(5));
    for offset in [7, 9, 13, 21] {
        t.upsert_finger(offset, node(5));
    }
    t.repair(node(20));
    assert_eq!(t.finger(6), Some(node(20)));
    assert_eq!(t.finger(7), Some(node(20)));
    assert_eq!(t.finger(9), Some(node(20)));
    assert_eq!(t.finger(13), Some(node(20)));
    assert_eq!(t.finger(21), Some(node(5)));
    t.repair(node(8));
    assert_eq!(t.finger(6), Some(node(8)));
    assert_eq!(t.finger(7), Some(node(8)));
    assert_eq!(t.finger(9), Some(node(20)));
    t.repair(node(8));
    assert_eq!(t.finger(9), Some(node(20)));
    assert_eq!(t.previous(), node(5));
}

#[test]
fn a_repair_leaves_the_owner_at_the_offset_itself() {
    let mut t = Table::new(6, node(6));
    t.repair(node(7));
    assert_eq!(t.finger(6), Some(node(6)));
    t.repair(node(5));
    assert_eq!(t.finger(6), Some(node(6)));
}

#[test]
fn entries_are_found_by_their_first_key() {
    let mut entries: Vec<(i64, u64)> = Vec::new();
    set_key(&mut entries, 3, 30);
    set_key(&mut entries, 4, 40);
    set_key(&mut entries, 3, 31);
    assert_eq!(entries, vec![(3, 31), (4, 40)]);
    assert_eq!(find(&entries, 3), Some(31));
    assert_eq!(find(&entries, 5), None);
    assert_eq!(find_index(&entries, 4), 1);
    assert_eq!(find_index(&entries, 5), 2);
}

#[test]
fn the_fingers_are_listed_in_the_order_they_came() {
    let mut t = Table::new(9, node(12));
    t.upsert_finger(6, node(8));
    t.upsert_finger(9, node(20));
    assert_eq!(t.fingers(), vec![(9, node(20)), (6, node(8))]);
}
