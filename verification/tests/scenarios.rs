use minihash::MiniHash;
use minihash::Placement;
use minihash::TableError;

#[test]
fn four_keys_then_lookup() {
    let table = MiniHash::new(4);
    assert_eq!(table.set(1, 2), Ok(()));
    assert_eq!(table.set(2, 3), Ok(()));
    assert_eq!(table.set(3, 4), Ok(()));
    assert_eq!(table.set(4, 5), Ok(()));
    assert_eq!(table.get(1), Ok(Some(2)));
    assert_eq!(table.get(2), Ok(Some(3)));
    assert_eq!(table.get(3), Ok(Some(4)));
    assert_eq!(table.get(4), Ok(Some(5)));
    assert_eq!(table.get(5), Ok(None));
}

#[test]
fn four_keys_then_lookup_sequential_placement() {
    let table = MiniHash::with_placement(4, Placement::Sequential);
    assert_eq!(table.set(1, 2), Ok(()));
    assert_eq!(table.set(2, 3), Ok(()));
    assert_eq!(table.set(3, 4), Ok(()));
    assert_eq!(table.set(4, 5), Ok(()));
    assert_eq!(table.get(1), Ok(Some(2)));
    assert_eq!(table.get(2), Ok(Some(3)));
    assert_eq!(table.get(3), Ok(Some(4)));
    assert_eq!(table.get(4), Ok(Some(5)));
    assert_eq!(table.get(5), Ok(None));
}

#[test]
fn fifth_key_exhausts_capacity_of_four() {
    let table = MiniHash::new(4);
    for key in [10u32, 20, 30, 40] {
        assert_eq!(table.set(key, key + 1), Ok(()));
    }
    assert_eq!(table.set(50, 51), Err(TableError::CapacityExhausted));
    for key in [10u32, 20, 30, 40] {
        assert_eq!(table.get(key), Ok(Some(key + 1)));
    }
    assert_eq!(table.get(50), Ok(None));
    assert_eq!(table.capacity(), 4);
}

#[test]
fn fifth_key_exhausts_sequential_table() {
    let table = MiniHash::with_placement(4, Placement::Sequential);
    for key in [10u32, 20, 30, 40] {
        assert_eq!(table.set(key, key + 1), Ok(()));
    }
    assert_eq!(table.set(50, 51), Err(TableError::CapacityExhausted));
    assert_eq!(table.len(), 4);
    for key in [10u32, 20, 30, 40] {
        assert_eq!(table.get(key), Ok(Some(key + 1)));
    }
}

#[test]
fn full_table_still_takes_new_values_for_its_keys() {
    let table = MiniHash::new(2);
    assert_eq!(table.set(7, 1), Ok(()));
    assert_eq!(table.set(8, 2), Ok(()));
    assert_eq!(table.set(9, 3), Err(TableError::CapacityExhausted));
    assert_eq!(table.set(7, 100), Ok(()));
    assert_eq!(table.get(7), Ok(Some(100)));
    assert_eq!(table.get(8), Ok(Some(2)));
}

#[test]
fn round_trip_returns_what_was_set() {
    let table = MiniHash::new(16);
    let pairs = [(1u32, 1u32), (2, u32::MAX), (u32::MAX, 2), (0x8000_0000, 0x7fff_ffff)];
    for (key, value) in pairs {
        assert_eq!(table.set(key, value), Ok(()));
        assert_eq!(table.get(key), Ok(Some(value)));
    }
    for (key, value) in pairs {
        assert_eq!(table.get(key), Ok(Some(value)));
    }
}

#[test]
fn key_never_set_is_absent() {
    let table = MiniHash::new(8);
    assert_eq!(table.get(3), Ok(None));
    assert_eq!(table.set(1, 10), Ok(()));
    assert_eq!(table.set(2, 20), Ok(()));
    assert_eq!(table.get(3), Ok(None));
    assert_eq!(table.get(u32::MAX), Ok(None));
}

#[test]
fn key_never_set_is_absent_in_full_table() {
    let table = MiniHash::new(3);
    assert_eq!(table.set(1, 10), Ok(()));
    assert_eq!(table.set(2, 20), Ok(()));
    assert_eq!(table.set(3, 30), Ok(()));
    assert_eq!(table.get(4), Ok(None));
}

#[test]
fn second_set_overwrites_first() {
    let table = MiniHash::new(4);
    assert_eq!(table.set(9, 1), Ok(()));
    assert_eq!(table.set(9, 2), Ok(()));
    assert_eq!(table.get(9), Ok(Some(2)));
    assert_eq!(table.set(1, 5), Ok(()));
    assert_eq!(table.set(2, 5), Ok(()));
    assert_eq!(table.set(3, 5), Ok(()));
    assert_eq!(table.set(4, 5), Err(TableError::CapacityExhausted));
}

#[test]
fn capacity_never_changes() {
    let table = MiniHash::new(3);
    assert_eq!(table.capacity(), 3);
    let _ = table.set(1, 1);
    let _ = table.get(1);
    let _ = table.set(2, 2);
    let _ = table.set(3, 3);
    let _ = table.set(4, 4);
    let _ = table.set(0, 4);
    let _ = table.len();
    let _ = table.is_empty();
    assert_eq!(table.capacity(), 3);
}

#[test]
fn zero_key_or_value_is_invalid() {
    let table = MiniHash::new(4);
    assert_eq!(table.set(0, 1), Err(TableError::InvalidArgument));
    assert_eq!(table.set(1, 0), Err(TableError::InvalidArgument));
    assert_eq!(table.set(0, 0), Err(TableError::InvalidArgument));
    assert_eq!(table.get(0), Err(TableError::InvalidArgument));
    assert!(table.is_empty());
    assert_eq!(table.get(1), Ok(None));
}

#[test]
fn invalid_argument_is_reported_before_exhaustion() {
    let table = MiniHash::new(1);
    assert_eq!(table.set(5, 6), Ok(()));
    assert_eq!(table.set(7, 8), Err(TableError::CapacityExhausted));
    assert_eq!(table.set(0, 8), Err(TableError::InvalidArgument));
    assert_eq!(table.set(7, 0), Err(TableError::InvalidArgument));
    assert_eq!(table.get(0), Err(TableError::InvalidArgument));
    assert_eq!(table.get(5), Ok(Some(6)));
}

#[test]
fn single_slot_table() {
    let table = MiniHash::new(1);
    assert_eq!(table.capacity(), 1);
    assert!(table.is_empty());
    assert_eq!(table.len(), 0);
    assert_eq!(table.get(42), Ok(None));
    assert_eq!(table.set(42, 1), Ok(()));
    assert_eq!(table.get(42), Ok(Some(1)));
    assert_eq!(table.len(), 1);
    assert!(!table.is_empty());
    assert_eq!(table.get(43), Ok(None));
}

#[test]
fn new_table_uses_hashed_placement() {
    assert_eq!(MiniHash::new(4).placement(), Placement::Hashed);
    assert_eq!(
        MiniHash::with_placement(4, Placement::Sequential).placement(),
        Placement::Sequential
    );
    assert_eq!(MiniHash::with_placement(4, Placement::Hashed).placement(), Placement::Hashed);
    assert_eq!(MiniHash::with_placement(9, Placement::Sequential).capacity(), 9);
}

#[test]
fn is_empty_is_true_only_without_keys() {
    let table = MiniHash::new(4);
    assert!(table.is_empty());
    assert_eq!(table.set(1, 2), Ok(()));
    assert!(!table.is_empty());
}

#[test]
fn len_counts_keys_under_sequential_placement() {
    let table = MiniHash::with_placement(5, Placement::Sequential);
    assert_eq!(table.len(), 0);
    assert_eq!(table.set(11, 1), Ok(()));
    assert_eq!(table.len(), 1);
    assert_eq!(table.set(22, 2), Ok(()));
    assert_eq!(table.len(), 2);
    assert_eq!(table.set(11, 3), Ok(()));
    assert_eq!(table.len(), 2);
    assert_eq!(table.set(33, 3), Ok(()));
    assert_eq!(table.set(44, 4), Ok(()));
    assert_eq!(table.set(55, 5), Ok(()));
    assert_eq!(table.len(), 5);
    assert_eq!(table.set(66, 6), Err(TableError::CapacityExhausted));
    assert_eq!(table.len(), 5);
}

#[test]
fn len_stops_at_first_gap_under_hashed_placement() {
    // Key 1 starts at slot 3 of 4, so slot 0 stays vacant.
    let table = MiniHash::new(4);
    assert_eq!(table.set(1, 10), Ok(()));
    assert_eq!(table.len(), 0);
    assert!(!table.is_empty());
    assert_eq!(table.get(1), Ok(Some(10)));
}

#[test]
fn probe_path_wraps_to_the_first_slot() {
    // Keys 1 and 3 both start at slot 3 of 4; the second one moves on to slot 0.
    let table = MiniHash::new(4);
    assert_eq!(table.set(1, 10), Ok(()));
    assert_eq!(table.set(3, 30), Ok(()));
    assert_eq!(table.len(), 1);
    assert_eq!(table.get(1), Ok(Some(10)));
    assert_eq!(table.get(3), Ok(Some(30)));
    // Key 2 starts at slot 2, which is vacant, so slot 1 remains the first gap.
    assert_eq!(table.set(2, 20), Ok(()));
    assert_eq!(table.len(), 1);
    // Key 4 starts at slot 1.
    assert_eq!(table.set(4, 40), Ok(()));
    assert_eq!(table.len(), 4);
    assert_eq!(table.get(2), Ok(Some(20)));
    assert_eq!(table.get(4), Ok(Some(40)));
}

#[test]
fn colliding_keys_keep_their_own_values() {
    // Keys 4, 5 and 48000 all start at slot 1 of 4.
    let table = MiniHash::new(4);
    assert_eq!(table.set(4, 1), Ok(()));
    assert_eq!(table.set(5, 2), Ok(()));
    assert_eq!(table.set(48000, 3), Ok(()));
    assert_eq!(table.get(4), Ok(Some(1)));
    assert_eq!(table.get(5), Ok(Some(2)));
    assert_eq!(table.get(48000), Ok(Some(3)));
    assert_eq!(table.set(5, 20), Ok(()));
    assert_eq!(table.get(4), Ok(Some(1)));
    assert_eq!(table.get(5), Ok(Some(20)));
    assert_eq!(table.get(48000), Ok(Some(3)));
    assert_eq!(table.len(), 0);
}

#[test]
fn disjoint_halves_converge() {
    let num: u32 = 24000;
    let table = MiniHash::new(num as usize * 2);
    for i in 0..num {
        let even = i * 2 + 2;
        assert_eq!(table.set(even, even + 1), Ok(()));
        let odd = (num - 1 - i) * 2 + 1;
        assert_eq!(table.set(odd, odd + 1), Ok(()));
    }
    for k in 1..=(num * 2) {
        assert_eq!(table.get(k), Ok(Some(k + 1)));
    }
    for k in (1..=(num * 2)).rev() {
        assert_eq!(k + 1, table.get(k).unwrap().unwrap_or(0));
    }
    assert_eq!(table.get(num * 2 + 1), Ok(None));
    assert_eq!(table.set(num * 2 + 1, 1), Err(TableError::CapacityExhausted));
}

#[test]
fn table_can_be_shared_by_reference() {
    let table = MiniHash::new(8);
    let first = &table;
    let second = &table;
    assert_eq!(first.set(1, 2), Ok(()));
    assert_eq!(second.set(3, 4), Ok(()));
    assert_eq!(second.get(1), Ok(Some(2)));
    assert_eq!(first.get(3), Ok(Some(4)));
}

#[test]
fn debug_output_names_the_table() {
    let table = MiniHash::new(1);
    assert_eq!(table.set(5, 6), Ok(()));
    let text = format!("{:?}", table);
    assert!(text.contains("MiniHash"));
    assert!(text.contains("5"));
    assert!(text.contains("6"));
}
