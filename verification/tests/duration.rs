use accio::duration::{digit_char, format_duration};

#[test]
fn duration_splits_minutes_and_seconds() {
    assert_eq!(format_duration(0), "0mins 0secs");
    assert_eq!(format_duration(5), "0mins 5secs");
    assert_eq!(format_duration(59), "0mins 59secs");
    assert_eq!(format_duration(60), "1mins 0secs");
    assert_eq!(format_duration(125), "2mins 5secs");
    assert_eq!(format_duration(3600), "60mins 0secs");
    assert_eq!(format_duration(6039), "100mins 39secs");
}

#[test]
fn duration_of_largest_count() {
    assert_eq!(format_duration(u64::MAX), "307445734561825860mins 15secs");
}

#[test]
fn digits_are_decimal() {
    let all: String = (0..10).map(digit_char).collect();
    assert_eq!(all, "0123456789");
}
