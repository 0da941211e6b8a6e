use stellaris_timer::date::Date;
use stellaris_timer::parse::{parse_date_text, ParseOutcome};

fn parse(s: &str) -> ParseOutcome {
    parse_date_text(&s.as_bytes().to_vec())
}

#[test]
fn a_well_formed_date_parses() {
    assert_eq!(
        parse("2250.06.15"),
        ParseOutcome::Valid(Date { year: 2250, month: 6, day: 15 })
    );
}

#[test]
fn surrounding_whitespace_is_ignored() {
    assert_eq!(
        parse("  2250.06.15\n"),
        ParseOutcome::Valid(Date { year: 2250, month: 6, day: 15 })
    );
}

#[test]
fn any_single_non_digit_separator_is_accepted() {
    assert_eq!(
        parse("2250-06-15"),
        ParseOutcome::Valid(Date { year: 2250, month: 6, day: 15 })
    );
}

#[test]
fn a_year_before_the_bound_is_out_of_range() {
    assert_eq!(parse("2100.01.01"), ParseOutcome::OutOfRange);
}

#[test]
fn a_year_at_the_upper_bound_is_out_of_range() {
    assert_eq!(parse("3000.01.01"), ParseOutcome::OutOfRange);
}

#[test]
fn a_thirteenth_month_is_out_of_range() {
    assert_eq!(parse("2250.13.01"), ParseOutcome::OutOfRange);
}

#[test]
fn a_thirty_first_day_is_out_of_range() {
    assert_eq!(parse("2250.06.31"), ParseOutcome::OutOfRange);
}

// The parser deliberately rejects a zero day and a zero month: the stored
// calendar invariant keeps both at one or above, so a `00` group — which a
// bare "below the upper bound" check would let through — is out of range.
#[test]
fn a_zero_day_is_out_of_range() {
    assert_eq!(parse("2250.06.00"), ParseOutcome::OutOfRange);
}

#[test]
fn a_zero_month_is_out_of_range() {
    assert_eq!(parse("2250.00.15"), ParseOutcome::OutOfRange);
}

#[test]
fn garbage_is_no_match() {
    assert_eq!(parse("abcd"), ParseOutcome::NoMatch);
}

#[test]
fn the_empty_string_is_no_match() {
    assert_eq!(parse(""), ParseOutcome::NoMatch);
}

#[test]
fn a_digit_separator_is_no_match() {
    assert_eq!(parse("2250006015"), ParseOutcome::NoMatch);
}

#[test]
fn short_digit_groups_are_no_match() {
    assert_eq!(parse("250.06.15"), ParseOutcome::NoMatch);
    assert_eq!(parse("2250.6.15"), ParseOutcome::NoMatch);
}

#[test]
fn trailing_bytes_are_no_match() {
    assert_eq!(parse("2250.06.155"), ParseOutcome::NoMatch);
}

#[test]
fn bounds_sit_exactly_on_the_accepted_interval() {
    assert_eq!(
        parse("2200.01.01"),
        ParseOutcome::Valid(Date { year: 2200, month: 1, day: 1 })
    );
    assert_eq!(
        parse("2999.12.30"),
        ParseOutcome::Valid(Date { year: 2999, month: 12, day: 30 })
    );
    assert_eq!(parse("2199.12.30"), ParseOutcome::OutOfRange);
}
