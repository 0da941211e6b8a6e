use stellaris_timer::date::{Date, Stamp, StampedDate};

#[test]
fn default_is_the_not_yet_synced_sentinel() {
    let d = Date::default();
    assert_eq!(d, Date { year: 2200, month: 1, day: 1 });
}

#[test]
fn adding_thirty_days_carries_into_the_next_month() {
    let d = Date { year: 2200, month: 1, day: 1 };
    assert_eq!(d.with_days_added(30), Date { year: 2200, month: 2, day: 1 });
}

#[test]
fn adding_a_full_year_carries_into_the_next_year() {
    let d = Date { year: 2200, month: 1, day: 1 };
    assert_eq!(d.with_days_added(360), Date { year: 2201, month: 1, day: 1 });
}

#[test]
fn adding_one_day_at_month_end_rolls_over() {
    let d = Date { year: 2200, month: 12, day: 30 };
    assert_eq!(d.with_days_added(1), Date { year: 2201, month: 1, day: 1 });
}

#[test]
fn adding_the_largest_interval_stays_within_the_horizon() {
    let d = Date { year: 2999, month: 12, day: 30 };
    let r = d.with_days_added(108000);
    assert_eq!(r, Date { year: 3299, month: 12, day: 30 });
}

#[test]
fn day_number_linearizes_the_fixed_calendar() {
    let d = Date { year: 2200, month: 1, day: 1 };
    assert_eq!(d.days_since_jesus(), 2200 * 360 + 30 + 1);
}

#[test]
fn a_date_renders_without_zero_padding() {
    let d = Date { year: 2250, month: 6, day: 15 };
    assert_eq!(d.render(), b"2250.6.15".to_vec());
    let e = Date { year: 2200, month: 12, day: 30 };
    assert_eq!(e.render(), b"2200.12.30".to_vec());
}

#[test]
fn dates_order_by_day_then_month_then_year() {
    let a = Date { year: 2200, month: 1, day: 1 };
    let b = Date { year: 2200, month: 1, day: 2 };
    let c = Date { year: 2200, month: 2, day: 1 };
    let d = Date { year: 2201, month: 1, day: 1 };
    assert!(a.lt(&b) && b.lt(&c) && c.lt(&d));
    assert!(!b.lt(&a) && !c.lt(&b) && !d.lt(&c));
    assert!(a.le(&a) && a.le(&d) && !d.le(&a));
}

#[test]
fn stamped_keys_break_ties_by_wall_clock() {
    let d = Date { year: 2200, month: 3, day: 7 };
    let early = StampedDate { time: Stamp { secs: 5, nanos: 10 }, date: d };
    let late = StampedDate { time: Stamp { secs: 5, nanos: 11 }, date: d };
    assert!(early.key_lt(&late));
    assert!(!late.key_lt(&early));
    assert!(early.key_eq(&early));
    assert!(!early.key_eq(&late));
}

#[test]
fn stamped_keys_order_by_date_before_wall_clock() {
    let a = StampedDate {
        time: Stamp { secs: 999, nanos: 0 },
        date: Date { year: 2200, month: 1, day: 1 },
    };
    let b = StampedDate {
        time: Stamp { secs: 1, nanos: 0 },
        date: Date { year: 2200, month: 1, day: 2 },
    };
    assert!(a.key_lt(&b));
    assert!(!b.key_lt(&a));
}
