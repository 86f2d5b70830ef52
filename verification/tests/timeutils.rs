use util_lib::timeutils::epoch;
use util_lib::timeutils::weeknum_utc;

#[test]
fn week_numbers() {
    assert_eq!(weeknum_utc(-5), 0);
    assert_eq!(weeknum_utc(0), 1);
    // 1 January 1970 was a Thursday: the following Sunday starts week 2.
    assert_eq!(weeknum_utc(259199), 1);
    assert_eq!(weeknum_utc(259200), 2);
    assert_eq!(weeknum_utc(863999), 2);
    assert_eq!(weeknum_utc(864000), 3);
}

#[test]
fn epoch_is_after_1970() {
    assert!(epoch() > 0);
}
