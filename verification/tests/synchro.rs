use stellaris_timer::cell::DateCell;
use stellaris_timer::date::Date;
use stellaris_timer::sync::{
    apply_recognition, force_opaque, prepare_capture, SyncState, REGION_HEIGHT, REGION_WIDTH,
};

#[test]
fn only_the_cancellation_signal_stops_the_loop() {
    assert_eq!(SyncState::Polling.step(false), SyncState::Polling);
    assert_eq!(SyncState::Polling.step(true), SyncState::Stopped);
    assert_eq!(SyncState::Stopped.step(false), SyncState::Stopped);
    assert_eq!(SyncState::Stopped.step(true), SyncState::Stopped);
}

#[test]
fn a_valid_recognition_overwrites_the_date_unconditionally() {
    let current = Date { year: 2250, month: 6, day: 15 };
    let next = apply_recognition(current, &b"2201.02.03".to_vec());
    assert_eq!(next, Date { year: 2201, month: 2, day: 3 });
}

#[test]
fn a_misread_leaves_the_date_unchanged() {
    let current = Date { year: 2250, month: 6, day: 15 };
    assert_eq!(apply_recognition(current, &b"22S0.O6.1S".to_vec()), current);
    assert_eq!(apply_recognition(current, &b"".to_vec()), current);
    assert_eq!(apply_recognition(current, &b"2100.01.01".to_vec()), current);
}

#[test]
fn alpha_bytes_are_forced_opaque_and_color_bytes_kept() {
    let mut pixels = vec![1u8, 2, 3, 4, 5, 6, 7, 8, 9];
    force_opaque(&mut pixels);
    assert_eq!(pixels, vec![1, 2, 3, 255, 5, 6, 7, 255, 9]);
}

#[test]
fn a_capture_encodes_to_a_png_stream() {
    let pixels = vec![128u8; (4 * REGION_WIDTH * REGION_HEIGHT) as usize];
    let png = prepare_capture(pixels, REGION_WIDTH, REGION_HEIGHT)
        .expect("encoding a well-sized buffer succeeds");
    // The PNG signature: the encoder produced a real image stream, not the
    // pixel buffer handed in.
    assert_eq!(&png[0..4], &[137u8, 80, 78, 71]);
}

#[test]
fn the_cell_returns_the_last_value_written_whole() {
    let cell = DateCell::new(Date::default());
    assert_eq!(cell.read(), Date { year: 2200, month: 1, day: 1 });
    let d = Date { year: 2240, month: 11, day: 29 };
    cell.write(d);
    assert_eq!(cell.read(), d);
    let earlier = Date { year: 2210, month: 1, day: 1 };
    cell.write(earlier);
    assert_eq!(cell.read(), earlier);
}
