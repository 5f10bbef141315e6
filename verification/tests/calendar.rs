use kit::contracts::{epoch_to_ymdhms, iso8601};

#[test]
fn epoch_2026_04_26_round_trip() {
    // 2026-04-26T00:00:00Z = `date -u -d '2026-04-26 00:00:00' +%s`
    let (y, mo, d, h, mi, s) = epoch_to_ymdhms(1_777_161_600);
    assert_eq!((y, mo, d, h, mi, s), (2026, 4, 26, 0, 0, 0));
}

#[test]
fn epoch_2024_02_29_leap_day() {
    // 2024-02-29T12:34:56Z = 1709210096
    let (y, mo, d, h, mi, s) = epoch_to_ymdhms(1_709_210_096);
    assert_eq!((y, mo, d, h, mi, s), (2024, 2, 29, 12, 34, 56));
}

#[test]
fn epoch_zero_is_unix_epoch() {
    let (y, mo, d, h, mi, s) = epoch_to_ymdhms(0);
    assert_eq!((y, mo, d, h, mi, s), (1970, 1, 1, 0, 0, 0));
}

#[test]
fn the_second_before_the_epoch() {
    assert_eq!(epoch_to_ymdhms(-1), (1969, 12, 31, 23, 59, 59));
    assert_eq!(epoch_to_ymdhms(-62_167_219_200), (0, 1, 1, 0, 0, 0));
    assert_eq!(epoch_to_ymdhms(951_782_400), (2000, 2, 29, 0, 0, 0));
    assert_eq!(epoch_to_ymdhms(4_107_542_400), (2100, 3, 1, 0, 0, 0));
}

#[test]
fn timestamps_have_two_digits() {
    assert_eq!(iso8601(0), "1970-01-01T00:00:00+00:00");
    assert_eq!(iso8601(1_709_210_096), "2024-02-29T12:34:56+00:00");
}
