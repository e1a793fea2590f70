use ogn_gateway::time_buckets::{bucket_times_between, time_to_datetime, to_bucket_time};

const JULY_10: i64 = 1531180800;
const JULY_11: i64 = 1531267200;

fn tod(h: u32, m: u32, s: u32) -> u32 {
    h * 3600 + m * 60 + s
}

fn run_test(now: i64, time: u32, expected_day: i64) {
    assert_eq!(time_to_datetime(now, time), expected_day + time as i64);
}

#[test]
fn time_test_time_to_datetime_realistic() {
    let now = 1531246523; // 2018-07-10T18:15:23Z
    run_test(now, tod(15, 6, 12), JULY_10);
    run_test(now, tod(20, 6, 12), JULY_10);
}

#[test]
fn time_test_time_to_datetime_almost_midnight() {
    let now = 1531265400; // 2018-07-10T23:30:00Z
    run_test(now, tod(22, 30, 0), JULY_10);
    run_test(now, tod(23, 30, 0), JULY_10);
    run_test(now, tod(0, 30, 0), JULY_11);

    run_test(now, tod(11, 29, 0), JULY_11);
    run_test(now, tod(11, 30, 0), JULY_11);
    run_test(now, tod(11, 31, 0), JULY_10);
}

#[test]
fn time_test_time_to_datetime_after_midnight() {
    let now = 1531269000; // 2018-07-11T00:30:00Z
    run_test(now, tod(22, 30, 0), JULY_10);
    run_test(now, tod(23, 30, 0), JULY_10);
    run_test(now, tod(0, 30, 0), JULY_11);

    run_test(now, tod(12, 29, 0), JULY_11);
    run_test(now, tod(12, 30, 0), JULY_10);
    run_test(now, tod(12, 31, 0), JULY_10);
}

#[test]
fn report_time_before_midnight_is_previous_day() {
    // now 2018-07-11T00:30:00Z, report at 23:30:00 -> 2018-07-10T23:30:00Z
    assert_eq!(time_to_datetime(1531269000, tod(23, 30, 0)), 1531265400);
}

fn check(from: i64, to: i64, expected: Vec<i64>) {
    assert_eq!(bucket_times_between(from, to), expected);
}

#[test]
fn messages_test_bucket_times() {
    // 2018-08-07T01:23:45Z .. 2018-08-07T01:23:45Z
    check(1533605025, 1533605025, vec![1533603600]);
    // 2018-08-07T01:23:45Z .. 2018-08-07T05:00:00Z
    check(
        1533605025,
        1533618000,
        vec![1533603600, 1533607200, 1533610800, 1533614400, 1533618000],
    );
    // 2018-08-06T22:00:00Z .. 2018-08-07T03:59:59Z
    check(
        1533592800,
        1533614399,
        vec![1533592800, 1533596400, 1533600000, 1533603600, 1533607200, 1533610800],
    );
}

#[test]
fn time_buckets_test_bucket_times() {
    check(1533605025, 1533605025, vec![1533603600]);
    check(
        1533605025,
        1533618000,
        vec![1533603600, 1533607200, 1533610800, 1533614400, 1533618000],
    );
    check(
        1533592800,
        1533614399,
        vec![1533592800, 1533596400, 1533600000, 1533603600, 1533607200, 1533610800],
    );
}

#[test]
fn bucket_time_is_top_of_hour() {
    assert_eq!(to_bucket_time(1533605025), 1533603600);
    assert_eq!(to_bucket_time(1533603600), 1533603600);
    assert_eq!(to_bucket_time(0), 0);
    assert_eq!(to_bucket_time(3599), 0);
    assert_eq!(to_bucket_time(-1), -3600);
    for t in [1533605025i64, 7, 3600, 123456789] {
        let b = to_bucket_time(t);
        assert!(b >= 0 && b % 3600 == 0 && t - b >= 0 && t - b < 3600);
    }
}

#[test]
fn bucket_times_of_reversed_range_are_empty() {
    assert!(bucket_times_between(1533618000, 1533603600).is_empty());
}
