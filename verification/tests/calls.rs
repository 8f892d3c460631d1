use minihash::access::Access;
use minihash::call::{GetCall, Pending, SetCall};
use minihash::Placement;
use minihash::TableError;

/// A slot as two plain integers, for driving calls one access at a time.
#[derive(Clone, Copy, Debug, PartialEq, Eq)]
struct Cell {
    key: u32,
    value: u32,
}

fn vacant(capacity: usize) -> Vec<Cell> {
    vec![Cell { key: 0, value: 0 }; capacity]
}

fn perform(cells: &mut Vec<Cell>, index: usize, access: Access) -> u32 {
    match access {
        Access::LoadKey => cells[index].key,
        Access::ClaimKey { key } => {
            let previous = cells[index].key;
            if previous == 0 {
                cells[index].key = key;
            }
            previous
        }
        Access::LoadValue => cells[index].value,
        Access::StoreValue { value } => {
            cells[index].value = value;
            0
        }
    }
}

/// Lets `call` make one access, if it has one pending, and says which it was.
fn turn_of_set(cells: &mut Vec<Cell>, call: &mut SetCall) -> Option<(usize, Access)> {
    match call.pending() {
        Pending::Access { index, access } => {
            let returned = perform(cells, index, access);
            *call = call.react(returned);
            Some((index, access))
        }
        Pending::Done { .. } => None,
    }
}

fn turn_of_get(cells: &mut Vec<Cell>, call: &mut GetCall) -> Option<(usize, Access)> {
    match call.pending() {
        Pending::Access { index, access } => {
            let returned = perform(cells, index, access);
            *call = call.react(returned);
            Some((index, access))
        }
        Pending::Done { .. } => None,
    }
}

fn finish_set(cells: &mut Vec<Cell>, call: &mut SetCall) -> (Result<(), TableError>, usize) {
    let mut accesses = 0;
    while turn_of_set(cells, call).is_some() {
        accesses += 1;
    }
    match call.pending() {
        Pending::Done { outcome } => (outcome, accesses),
        Pending::Access { .. } => unreachable!(),
    }
}

fn finish_get(cells: &mut Vec<Cell>, call: &mut GetCall) -> (Option<u32>, usize) {
    let mut accesses = 0;
    while turn_of_get(cells, call).is_some() {
        accesses += 1;
    }
    match call.pending() {
        Pending::Done { outcome } => (outcome, accesses),
        Pending::Access { .. } => unreachable!(),
    }
}

fn set_alone(
    cells: &mut Vec<Cell>,
    placement: Placement,
    key: u32,
    value: u32,
) -> Result<(), TableError> {
    let mut call = SetCall::begin(placement, key, value, cells.len()).unwrap();
    finish_set(cells, &mut call).0
}

fn get_alone(cells: &mut Vec<Cell>, placement: Placement, key: u32) -> Option<u32> {
    let mut call = GetCall::begin(placement, key, cells.len()).unwrap();
    finish_get(cells, &mut call).0
}

#[test]
fn set_on_vacant_slot_loads_claims_and_stores() {
    let mut cells = vacant(4);
    let mut call = SetCall::begin(Placement::Hashed, 1, 10, 4).unwrap();
    assert_eq!(turn_of_set(&mut cells, &mut call), Some((3, Access::LoadKey)));
    assert_eq!(cells, vacant(4));
    assert_eq!(turn_of_set(&mut cells, &mut call), Some((3, Access::ClaimKey { key: 1 })));
    assert_eq!(cells[3], Cell { key: 1, value: 0 });
    assert_eq!(turn_of_set(&mut cells, &mut call), Some((3, Access::StoreValue { value: 10 })));
    assert_eq!(cells[3], Cell { key: 1, value: 10 });
    assert_eq!(call.pending(), Pending::Done { outcome: Ok(()) });
    assert_eq!(turn_of_set(&mut cells, &mut call), None);
    assert_eq!(cells[0], Cell { key: 0, value: 0 });
    assert_eq!(cells[1], Cell { key: 0, value: 0 });
    assert_eq!(cells[2], Cell { key: 0, value: 0 });
}

#[test]
fn set_on_own_key_stores_without_claiming() {
    let mut cells = vacant(4);
    cells[3] = Cell { key: 1, value: 10 };
    let mut call = SetCall::begin(Placement::Hashed, 1, 11, 4).unwrap();
    assert_eq!(turn_of_set(&mut cells, &mut call), Some((3, Access::LoadKey)));
    assert_eq!(turn_of_set(&mut cells, &mut call), Some((3, Access::StoreValue { value: 11 })));
    assert_eq!(call.pending(), Pending::Done { outcome: Ok(()) });
    assert_eq!(cells[3], Cell { key: 1, value: 11 });
}

#[test]
fn set_moves_past_other_keys_and_wraps() {
    let mut cells = vacant(4);
    cells[3] = Cell { key: 7, value: 70 };
    cells[0] = Cell { key: 8, value: 80 };
    let mut call = SetCall::begin(Placement::Hashed, 1, 10, 4).unwrap();
    assert_eq!(turn_of_set(&mut cells, &mut call), Some((3, Access::LoadKey)));
    assert_eq!(turn_of_set(&mut cells, &mut call), Some((0, Access::LoadKey)));
    assert_eq!(turn_of_set(&mut cells, &mut call), Some((1, Access::LoadKey)));
    assert_eq!(turn_of_set(&mut cells, &mut call), Some((1, Access::ClaimKey { key: 1 })));
    assert_eq!(turn_of_set(&mut cells, &mut call), Some((1, Access::StoreValue { value: 10 })));
    assert_eq!(call.pending(), Pending::Done { outcome: Ok(()) });
    assert_eq!(
        cells,
        vec![
            Cell { key: 8, value: 80 },
            Cell { key: 1, value: 10 },
            Cell { key: 0, value: 0 },
            Cell { key: 7, value: 70 },
        ]
    );
}

#[test]
fn set_gives_up_after_one_round_and_writes_nothing() {
    let mut cells = vec![Cell { key: 7, value: 70 }, Cell { key: 8, value: 80 }];
    let before = cells.clone();
    let mut call = SetCall::begin(Placement::Sequential, 9, 90, 2).unwrap();
    assert_eq!(turn_of_set(&mut cells, &mut call), Some((0, Access::LoadKey)));
    assert_eq!(turn_of_set(&mut cells, &mut call), Some((1, Access::LoadKey)));
    assert_eq!(call.pending(), Pending::Done { outcome: Err(TableError::CapacityExhausted) });
    assert_eq!(turn_of_set(&mut cells, &mut call), None);
    assert_eq!(cells, before);
}

#[test]
fn finished_calls_ignore_further_reports() {
    let mut cells = vacant(1);
    let mut set = SetCall::begin(Placement::Hashed, 5, 6, 1).unwrap();
    assert_eq!(finish_set(&mut cells, &mut set), (Ok(()), 3));
    let same = set.react(99);
    assert_eq!(same, set);
    assert_eq!(same.pending(), Pending::Done { outcome: Ok(()) });
    let mut get = GetCall::begin(Placement::Hashed, 5, 1).unwrap();
    assert_eq!(finish_get(&mut cells, &mut get), (Some(6), 2));
    let same = get.react(99);
    assert_eq!(same, get);
    assert_eq!(same.pending(), Pending::Done { outcome: Some(6) });
}

#[test]
fn get_loads_key_then_value() {
    let mut cells = vacant(4);
    cells[3] = Cell { key: 1, value: 10 };
    let mut call = GetCall::begin(Placement::Hashed, 1, 4).unwrap();
    assert_eq!(turn_of_get(&mut cells, &mut call), Some((3, Access::LoadKey)));
    assert_eq!(turn_of_get(&mut cells, &mut call), Some((3, Access::LoadValue)));
    assert_eq!(call.pending(), Pending::Done { outcome: Some(10) });
    assert_eq!(turn_of_get(&mut cells, &mut call), None);
}

#[test]
fn get_stops_at_the_first_vacant_slot() {
    let mut cells = vacant(4);
    cells[3] = Cell { key: 7, value: 70 };
    cells[1] = Cell { key: 1, value: 10 };
    // Key 1 starts at slot 3 and would reach slot 1 only past the vacant slot 0.
    let mut call = GetCall::begin(Placement::Hashed, 1, 4).unwrap();
    assert_eq!(turn_of_get(&mut cells, &mut call), Some((3, Access::LoadKey)));
    assert_eq!(turn_of_get(&mut cells, &mut call), Some((0, Access::LoadKey)));
    assert_eq!(call.pending(), Pending::Done { outcome: None });
}

#[test]
fn get_gives_up_after_one_round() {
    let mut cells = vec![
        Cell { key: 7, value: 70 },
        Cell { key: 8, value: 80 },
        Cell { key: 9, value: 90 },
    ];
    let mut call = GetCall::begin(Placement::Sequential, 1, 3).unwrap();
    assert_eq!(finish_get(&mut cells, &mut call), (None, 3));
}

#[test]
fn get_between_claim_and_store_finds_nothing() {
    let mut cells = vacant(4);
    let mut writer = SetCall::begin(Placement::Hashed, 1, 10, 4).unwrap();
    assert_eq!(turn_of_set(&mut cells, &mut writer), Some((3, Access::LoadKey)));
    assert_eq!(turn_of_set(&mut cells, &mut writer), Some((3, Access::ClaimKey { key: 1 })));
    assert_eq!(get_alone(&mut cells, Placement::Hashed, 1), None);
    assert_eq!(turn_of_set(&mut cells, &mut writer), Some((3, Access::StoreValue { value: 10 })));
    assert_eq!(get_alone(&mut cells, Placement::Hashed, 1), Some(10));
}

#[test]
fn get_that_found_the_key_before_the_store_finds_nothing() {
    let mut cells = vacant(4);
    let mut writer = SetCall::begin(Placement::Hashed, 1, 10, 4).unwrap();
    let mut reader = GetCall::begin(Placement::Hashed, 1, 4).unwrap();
    turn_of_set(&mut cells, &mut writer);
    turn_of_set(&mut cells, &mut writer);
    assert_eq!(turn_of_get(&mut cells, &mut reader), Some((3, Access::LoadKey)));
    assert_eq!(turn_of_get(&mut cells, &mut reader), Some((3, Access::LoadValue)));
    assert_eq!(finish_set(&mut cells, &mut writer), (Ok(()), 1));
    assert_eq!(reader.pending(), Pending::Done { outcome: None });
}

#[test]
fn lost_claim_to_another_key_moves_on_and_leaves_the_slot() {
    // Keys 1 and 3 both start at slot 3 of 4.
    let mut cells = vacant(4);
    let mut first = SetCall::begin(Placement::Hashed, 1, 10, 4).unwrap();
    let mut second = SetCall::begin(Placement::Hashed, 3, 30, 4).unwrap();
    assert_eq!(turn_of_set(&mut cells, &mut first), Some((3, Access::LoadKey)));
    assert_eq!(turn_of_set(&mut cells, &mut second), Some((3, Access::LoadKey)));
    assert_eq!(turn_of_set(&mut cells, &mut second), Some((3, Access::ClaimKey { key: 3 })));
    assert_eq!(turn_of_set(&mut cells, &mut first), Some((3, Access::ClaimKey { key: 1 })));
    assert_eq!(cells[3], Cell { key: 3, value: 0 });
    assert_eq!(turn_of_set(&mut cells, &mut first), Some((0, Access::LoadKey)));
    assert_eq!(turn_of_set(&mut cells, &mut first), Some((0, Access::ClaimKey { key: 1 })));
    assert_eq!(turn_of_set(&mut cells, &mut first), Some((0, Access::StoreValue { value: 10 })));
    assert_eq!(finish_set(&mut cells, &mut second), (Ok(()), 1));
    assert_eq!(first.pending(), Pending::Done { outcome: Ok(()) });
    assert_eq!(cells[3], Cell { key: 3, value: 30 });
    assert_eq!(cells[0], Cell { key: 1, value: 10 });
    assert_eq!(get_alone(&mut cells, Placement::Hashed, 1), Some(10));
    assert_eq!(get_alone(&mut cells, Placement::Hashed, 3), Some(30));
}

#[test]
fn lost_claim_to_the_same_key_shares_the_slot() {
    let mut cells = vacant(4);
    let mut first = SetCall::begin(Placement::Hashed, 1, 10, 4).unwrap();
    let mut second = SetCall::begin(Placement::Hashed, 1, 20, 4).unwrap();
    assert_eq!(turn_of_set(&mut cells, &mut first), Some((3, Access::LoadKey)));
    assert_eq!(turn_of_set(&mut cells, &mut second), Some((3, Access::LoadKey)));
    assert_eq!(turn_of_set(&mut cells, &mut first), Some((3, Access::ClaimKey { key: 1 })));
    assert_eq!(turn_of_set(&mut cells, &mut second), Some((3, Access::ClaimKey { key: 1 })));
    assert_eq!(turn_of_set(&mut cells, &mut second), Some((3, Access::StoreValue { value: 20 })));
    assert_eq!(turn_of_set(&mut cells, &mut first), Some((3, Access::StoreValue { value: 10 })));
    assert_eq!(first.pending(), Pending::Done { outcome: Ok(()) });
    assert_eq!(second.pending(), Pending::Done { outcome: Ok(()) });
    assert_eq!(
        cells,
        vec![
            Cell { key: 0, value: 0 },
            Cell { key: 0, value: 0 },
            Cell { key: 0, value: 0 },
            Cell { key: 1, value: 10 },
        ]
    );
}

#[test]
fn alternating_writers_of_disjoint_keys_converge() {
    let num: u32 = 200;
    let capacity = num as usize * 2;
    let mut cells = vacant(capacity);
    for i in 0..num {
        let even = i * 2 + 2;
        let odd = (num - 1 - i) * 2 + 1;
        let mut first = SetCall::begin(Placement::Hashed, even, even + 1, capacity).unwrap();
        let mut second = SetCall::begin(Placement::Hashed, odd, odd + 1, capacity).unwrap();
        let mut accesses = 0;
        loop {
            let one = turn_of_set(&mut cells, &mut first);
            let other = turn_of_set(&mut cells, &mut second);
            accesses += one.is_some() as usize + other.is_some() as usize;
            if one.is_none() && other.is_none() {
                break;
            }
        }
        assert!(accesses <= 2 * (2 * capacity + 1));
        assert_eq!(first.pending(), Pending::Done { outcome: Ok(()) });
        assert_eq!(second.pending(), Pending::Done { outcome: Ok(()) });
    }
    for key in 1..=(num * 2) {
        assert_eq!(get_alone(&mut cells, Placement::Hashed, key), Some(key + 1));
    }
    assert_eq!(get_alone(&mut cells, Placement::Hashed, num * 2 + 1), None);
    let mut keys: Vec<u32> = cells.iter().map(|cell| cell.key).collect();
    keys.sort();
    assert_eq!(keys, (1..=(num * 2)).collect::<Vec<u32>>());
}

#[test]
fn calls_alone_do_what_the_table_does() {
    let table = minihash::MiniHash::new(5);
    let mut cells = vacant(5);
    let writes = [(1u32, 2u32), (6, 7), (11, 12), (1, 3), (16, 17), (21, 22), (26, 27), (6, 8)];
    for (key, value) in writes {
        assert_eq!(set_alone(&mut cells, Placement::Hashed, key, value), table.set(key, value));
    }
    for key in 1..30u32 {
        assert_eq!(Ok(get_alone(&mut cells, Placement::Hashed, key)), table.get(key));
    }
    assert_eq!(get_alone(&mut cells, Placement::Hashed, 1), Some(3));
    assert_eq!(get_alone(&mut cells, Placement::Hashed, 6), Some(8));
    assert_eq!(get_alone(&mut cells, Placement::Hashed, 26), None);
    assert_eq!(cells.iter().filter(|cell| cell.key != 0).count(), 5);
}

#[test]
fn set_needs_at_most_two_accesses_per_slot_and_one() {
    let mut cells = vec![
        Cell { key: 7, value: 70 },
        Cell { key: 8, value: 80 },
        Cell { key: 0, value: 0 },
    ];
    let mut call = SetCall::begin(Placement::Sequential, 9, 90, 3).unwrap();
    assert_eq!(finish_set(&mut cells, &mut call), (Ok(()), 5));
    let mut full = SetCall::begin(Placement::Sequential, 10, 100, 3).unwrap();
    assert_eq!(finish_set(&mut cells, &mut full), (Err(TableError::CapacityExhausted), 3));
    let mut reader = GetCall::begin(Placement::Sequential, 9, 3).unwrap();
    assert_eq!(finish_get(&mut cells, &mut reader), (Some(90), 4));
}

fn len_alone(cells: &mut Vec<Cell>) -> (usize, usize) {
    let mut call = minihash::scan::LenCall::begin(cells.len());
    let mut accesses = 0;
    loop {
        match call.pending() {
            Pending::Access { index, access } => {
                let returned = perform(cells, index, access);
                call = call.react(returned);
                accesses += 1;
            }
            Pending::Done { outcome } => return (outcome, accesses),
        }
    }
}

fn is_empty_alone(cells: &mut Vec<Cell>) -> (bool, usize) {
    let mut call = minihash::scan::EmptyCall::begin(cells.len());
    let mut accesses = 0;
    loop {
        match call.pending() {
            Pending::Access { index, access } => {
                let returned = perform(cells, index, access);
                call = call.react(returned);
                accesses += 1;
            }
            Pending::Done { outcome } => return (outcome, accesses),
        }
    }
}

#[test]
fn calls_refuse_zero() {
    assert_eq!(SetCall::begin(Placement::Hashed, 0, 1, 4), Err(TableError::InvalidArgument));
    assert_eq!(SetCall::begin(Placement::Hashed, 1, 0, 4), Err(TableError::InvalidArgument));
    assert_eq!(SetCall::begin(Placement::Sequential, 0, 0, 4), Err(TableError::InvalidArgument));
    assert_eq!(GetCall::begin(Placement::Hashed, 0, 4), Err(TableError::InvalidArgument));
    assert!(SetCall::begin(Placement::Hashed, 1, 1, 4).is_ok());
    assert!(GetCall::begin(Placement::Hashed, 1, 4).is_ok());
}

#[test]
fn len_stops_at_first_slot_without_key_or_value() {
    let mut cells = vacant(3);
    assert_eq!(len_alone(&mut cells), (0, 1));
    cells[0] = Cell { key: 5, value: 0 };
    assert_eq!(len_alone(&mut cells), (0, 2));
    cells[0] = Cell { key: 5, value: 6 };
    assert_eq!(len_alone(&mut cells), (1, 3));
    cells[2] = Cell { key: 7, value: 8 };
    assert_eq!(len_alone(&mut cells), (1, 3));
    cells[1] = Cell { key: 9, value: 1 };
    assert_eq!(len_alone(&mut cells), (3, 6));
    assert_eq!(cells[0], Cell { key: 5, value: 6 });
}

#[test]
fn is_empty_stops_at_first_key() {
    let mut cells = vacant(3);
    assert_eq!(is_empty_alone(&mut cells), (true, 3));
    cells[2] = Cell { key: 7, value: 0 };
    assert_eq!(is_empty_alone(&mut cells), (false, 3));
    cells[1] = Cell { key: 9, value: 1 };
    assert_eq!(is_empty_alone(&mut cells), (false, 2));
    cells[0] = Cell { key: 5, value: 6 };
    assert_eq!(is_empty_alone(&mut cells), (false, 1));
}

#[test]
fn finished_scans_ignore_further_reports() {
    let mut cells = vacant(1);
    assert_eq!(len_alone(&mut cells), (0, 1));
    let mut call = minihash::scan::LenCall::begin(1);
    call = call.react(0);
    assert_eq!(call.pending(), Pending::Done { outcome: 0 });
    assert_eq!(call.react(5), call);
    let mut check = minihash::scan::EmptyCall::begin(1);
    check = check.react(0);
    assert_eq!(check.pending(), Pending::Done { outcome: true });
    assert_eq!(check.react(5), check);
}
