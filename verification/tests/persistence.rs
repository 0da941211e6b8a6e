use stellaris_timer::codec::{decode_state, encode_state};
use stellaris_timer::date::{Date, Stamp};
use stellaris_timer::store::Reminders;

fn stamp(secs: u64) -> Stamp {
    Stamp { secs, nanos: 42 }
}

fn day_one() -> Date {
    Date { year: 2200, month: 1, day: 1 }
}

#[test]
fn an_empty_state_round_trips() {
    let d = Date { year: 2233, month: 4, day: 5 };
    let store = Reminders::new();
    let bytes = encode_state(&d, &store);
    let (d2, store2) = decode_state(&bytes).expect("a saved state must load");
    assert_eq!(d2, d);
    assert_eq!(store2.len(), 0);
}

#[test]
fn a_populated_state_round_trips_entry_for_entry() {
    let d = Date { year: 2250, month: 6, day: 15 };
    let mut store = Reminders::new();
    store.add_reminder(stamp(30), day_one(), b"colonize".to_vec(), 300);
    store.add_reminder(stamp(10), day_one(), b"survey".to_vec(), 7);
    store.add_reminder(stamp(20), day_one(), b"war".to_vec(), 108000);
    let fired = store.scan_and_trigger(Date { year: 2200, month: 1, day: 8 });
    assert_eq!(fired, vec![b"survey".to_vec()]);

    let bytes = encode_state(&d, &store);
    let (d2, store2) = decode_state(&bytes).expect("a saved state must load");
    assert_eq!(d2, d);
    assert_eq!(store2.len(), store.len());
    for i in 0..store.len() {
        let a = store.entry_at(i);
        let b = store2.entry_at(i);
        assert_eq!(a.key, b.key);
        assert_eq!(a.label, b.label);
        assert_eq!(a.triggered, b.triggered);
    }
}

#[test]
fn the_rebuilt_store_is_independent_of_insertion_order() {
    let d = day_one();
    let mut one = Reminders::new();
    one.add_reminder(stamp(1), day_one(), b"a".to_vec(), 10);
    one.add_reminder(stamp(2), day_one(), b"b".to_vec(), 20);
    let mut other = Reminders::new();
    other.add_reminder(stamp(2), day_one(), b"b".to_vec(), 20);
    other.add_reminder(stamp(1), day_one(), b"a".to_vec(), 10);

    let (_, from_one) = decode_state(&encode_state(&d, &one)).unwrap();
    let (_, from_other) = decode_state(&encode_state(&d, &other)).unwrap();
    assert_eq!(from_one.len(), from_other.len());
    for i in 0..from_one.len() {
        assert_eq!(from_one.entry_at(i).key, from_other.entry_at(i).key);
        assert_eq!(from_one.entry_at(i).label, from_other.entry_at(i).label);
    }
}

fn entry_bytes(
    secs: u64,
    nanos: u32,
    year: u16,
    month: u8,
    day: u8,
    triggered: bool,
    label: &[u8],
) -> Vec<u8> {
    let mut v = Vec::new();
    v.extend_from_slice(&secs.to_le_bytes());
    v.extend_from_slice(&nanos.to_le_bytes());
    v.extend_from_slice(&year.to_le_bytes());
    v.push(month);
    v.push(day);
    v.push(if triggered { 1 } else { 0 });
    v.extend_from_slice(&(label.len() as u64).to_le_bytes());
    v.extend_from_slice(label);
    v
}

fn image(year: u16, month: u8, day: u8, entries: &[Vec<u8>]) -> Vec<u8> {
    let mut v = Vec::new();
    v.extend_from_slice(&year.to_le_bytes());
    v.push(month);
    v.push(day);
    v.extend_from_slice(&(entries.len() as u64).to_le_bytes());
    for e in entries {
        v.extend_from_slice(e);
    }
    v
}

#[test]
fn an_image_stored_out_of_order_loads_rebuilt_in_key_order() {
    let bytes = image(
        2200,
        1,
        1,
        &[
            entry_bytes(9, 0, 2200, 2, 1, false, b"later"),
            entry_bytes(5, 0, 2200, 1, 5, false, b"sooner"),
        ],
    );
    let (_, store) = decode_state(&bytes).expect("order on disk is not required");
    assert_eq!(store.len(), 2);
    assert_eq!(store.entry_at(0).key.date, Date { year: 2200, month: 1, day: 5 });
    assert_eq!(store.entry_at(0).label, b"sooner".to_vec());
    assert_eq!(store.entry_at(1).key.date, Date { year: 2200, month: 2, day: 1 });
    assert_eq!(store.entry_at(1).label, b"later".to_vec());
}

#[test]
fn a_duplicated_key_on_disk_keeps_the_later_pair() {
    let bytes = image(
        2200,
        1,
        1,
        &[
            entry_bytes(7, 3, 2200, 3, 9, false, b"earlier pair"),
            entry_bytes(7, 3, 2200, 3, 9, true, b"later pair"),
        ],
    );
    let (_, store) = decode_state(&bytes).expect("a duplicate key is not an error");
    assert_eq!(store.len(), 1);
    assert_eq!(store.entry_at(0).label, b"later pair".to_vec());
    assert!(store.entry_at(0).triggered);
}

#[test]
fn the_triggered_latch_survives_a_load() {
    let bytes = image(2201, 6, 6, &[entry_bytes(1, 0, 2201, 1, 1, true, b"done")]);
    let (_, store) = decode_state(&bytes).expect("a saved latch must load");
    assert!(store.entry_at(0).triggered);
}

#[test]
fn a_latch_byte_that_is_neither_zero_nor_one_is_rejected() {
    let mut bytes = image(2200, 1, 1, &[entry_bytes(1, 0, 2200, 1, 2, false, b"x")]);
    // The latch byte of the single entry sits after the 12-byte header and
    // the entry's 16 bytes of stamp and date.
    bytes[28] = 2;
    assert!(decode_state(&bytes).is_none());
}

#[test]
fn a_stamp_with_a_second_of_nanoseconds_is_rejected() {
    let bytes = image(
        2200,
        1,
        1,
        &[entry_bytes(1, 1_000_000_000, 2200, 1, 2, false, b"x")],
    );
    assert!(decode_state(&bytes).is_none());
}

#[test]
fn an_entry_with_an_invalid_date_shape_is_rejected() {
    let bytes = image(2200, 1, 1, &[entry_bytes(1, 0, 2200, 0, 2, false, b"x")]);
    assert!(decode_state(&bytes).is_none());
    let bytes = image(2200, 1, 1, &[entry_bytes(1, 0, 2200, 1, 31, false, b"x")]);
    assert!(decode_state(&bytes).is_none());
}

#[test]
fn an_empty_file_is_rejected() {
    assert!(decode_state(&Vec::new()).is_none());
}

#[test]
fn garbage_bytes_are_rejected() {
    assert!(decode_state(&b"not a saved state".to_vec()).is_none());
}

#[test]
fn a_truncated_image_is_rejected() {
    let d = day_one();
    let mut store = Reminders::new();
    store.add_reminder(stamp(1), day_one(), b"a".to_vec(), 10);
    let mut bytes = encode_state(&d, &store);
    bytes.pop();
    assert!(decode_state(&bytes).is_none());
}

#[test]
fn trailing_bytes_are_rejected() {
    let d = day_one();
    let store = Reminders::new();
    let mut bytes = encode_state(&d, &store);
    bytes.push(0);
    assert!(decode_state(&bytes).is_none());
}

#[test]
fn a_saved_date_outside_the_parser_bounds_is_rejected() {
    // The year bytes of the header forged to 2100, below the accepted range.
    let store = Reminders::new();
    let mut bytes = encode_state(&day_one(), &store);
    let forged = 2100u16.to_le_bytes();
    bytes[0] = forged[0];
    bytes[1] = forged[1];
    assert!(decode_state(&bytes).is_none());
}
