use chord_ring::ring::{contains, normalize, HALF_RING, RING_SIZE};

#[test]
fn arc_without_wrap_excludes_lower_and_includes_upper() {
    assert!(!contains(3, 3, 7));
    assert!(contains(4, 3, 7));
    assert!(contains(7, 3, 7));
    assert!(!contains(8, 3, 7));
    assert!(!contains(0, 3, 7));
    assert!(!contains(31, 3, 7));
}

#[test]
fn arc_with_wrap_passes_through_zero() {
    assert!(contains(29, 28, 3));
    assert!(contains(31, 28, 3));
    assert!(contains(0, 28, 3));
    assert!(contains(3, 28, 3));
    assert!(!contains(28, 28, 3));
    assert!(!contains(4, 28, 3));
    assert!(!contains(27, 28, 3));
}

#[test]
fn arc_between_equal_ends_is_the_whole_ring() {
    for id in 0..RING_SIZE {
        assert!(contains(id, 5, 5));
    }
    assert!(contains(999, 5, 5));
    assert!(contains(-4, 5, 5));
}

#[test]
fn every_id_lies_on_exactly_one_of_two_complementary_arcs() {
    for lower in 0..RING_SIZE {
        for upper in 0..RING_SIZE {
            if lower == upper {
                continue;
            }
            for id in 0..RING_SIZE {
                assert_ne!(contains(id, lower, upper), contains(id, upper, lower));
            }
        }
    }
}

#[test]
fn containment_agrees_with_a_clockwise_walk() {
    for lower in 0..RING_SIZE {
        for upper in 0..RING_SIZE {
            if lower == upper {
                continue;
            }
            let mut walked: Vec<i64> = Vec::new();
            let mut at = lower;
            while at != upper {
                at = (at + 1) % RING_SIZE;
                walked.push(at);
            }
            for id in 0..RING_SIZE {
                assert_eq!(contains(id, lower, upper), walked.contains(&id));
            }
        }
    }
}

#[test]
fn normalize_brings_any_integer_onto_the_ring() {
    assert_eq!(normalize(0), 0);
    assert_eq!(normalize(31), 31);
    assert_eq!(normalize(32), 0);
    assert_eq!(normalize(37), 5);
    assert_eq!(normalize(999), 7);
    assert_eq!(normalize(-1), 31);
    assert_eq!(normalize(-32), 0);
    assert_eq!(normalize(-33), 31);
    assert_eq!(normalize(i64::MAX), 31);
    assert_eq!(normalize(i64::MIN), 0);
}

#[test]
fn ring_constants() {
    assert_eq!(RING_SIZE, 32);
    assert_eq!(HALF_RING, 16);
}
