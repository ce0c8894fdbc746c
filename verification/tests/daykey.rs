use crabsplit::daykey::{day_key, day_key_from_parts};

#[test]
fn day_key_of_the_epoch() {
    // 1970-01-01 00:00 UTC is already 1970-01-01 in Istanbul (UTC+2 then).
    assert_eq!(day_key(0), "1-1-1970");
}

#[test]
fn day_key_changes_at_local_midnight() {
    // 1970-01-10 21:59:59 UTC is 23:59:59 on the 10th in Istanbul;
    // one second later the local day is the 11th.
    let before_midnight: u64 = 10 * 86_400 - 2 * 3_600 - 1;
    assert_eq!(day_key(before_midnight), "10-1-1970");
    assert_eq!(day_key(before_midnight + 1), "11-1-1970");
}

#[test]
fn day_key_on_a_modern_date() {
    // 2023-11-14 22:13:20 UTC is 2023-11-15 01:13:20 in Istanbul (UTC+3).
    assert_eq!(day_key(1_700_000_000), "15-11-2023");
}

#[test]
fn day_key_from_parts_is_unpadded() {
    assert_eq!(day_key_from_parts(5, 3, 2024), "5-3-2024");
    assert_eq!(day_key_from_parts(31, 12, 1999), "31-12-1999");
}

#[test]
fn day_key_from_parts_handles_a_negative_year() {
    assert_eq!(day_key_from_parts(5, 3, -44), "5-3--44");
}
