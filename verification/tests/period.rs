use strata::period::{period_int_to_string, ts_to_period_int};

#[test]
fn keys_of_the_epoch() {
    assert_eq!(ts_to_period_int(0, false), 1970 * 4);
    assert_eq!(ts_to_period_int(0, true), 1970 * 4);
    assert_eq!(ts_to_period_int(-1, false), 1969 * 4 + 3);
    assert_eq!(ts_to_period_int(-1, true), 1969 * 4);
}

#[test]
fn keys_at_the_edges_of_a_quarter() {
    // 2019-07-01T00:00:00Z and one second before it
    assert_eq!(ts_to_period_int(1561939200, false), 2019 * 4 + 2);
    assert_eq!(ts_to_period_int(1561939199, false), 2019 * 4 + 1);
    // 2020-02-29T23:59:59Z
    assert_eq!(ts_to_period_int(1583020799, false), 2020 * 4);
    // 2020-12-31T23:59:59Z and one second after it
    assert_eq!(ts_to_period_int(1609459199, false), 2020 * 4 + 3);
    assert_eq!(ts_to_period_int(1609459200, false), 2021 * 4);
    assert_eq!(ts_to_period_int(1609459199, true), 2020 * 4);
}

#[test]
fn moments_without_a_key() {
    assert_eq!(ts_to_period_int(i64::MAX, false), i32::MIN);
    assert_eq!(ts_to_period_int(i64::MIN, true), i32::MIN);
}

#[test]
fn first_and_last_moments_with_a_key() {
    let last = 8210266876799;
    assert_eq!(ts_to_period_int(last, true), 262142 * 4);
    assert_eq!(ts_to_period_int(last + 1, true), i32::MIN);
    let first = -8334601228800;
    assert_eq!(ts_to_period_int(first, true), -262143 * 4);
    assert_eq!(ts_to_period_int(first - 1, true), i32::MIN);
}

#[test]
fn labels_of_periods() {
    assert_eq!(period_int_to_string(2019 * 4 + 2, false), "2019-Q3");
    assert_eq!(period_int_to_string(2019 * 4, true), "2019");
    assert_eq!(period_int_to_string(2018 * 4, false), "2018-Q1");
    assert_eq!(period_int_to_string(i32::MIN, false), "unknown");
    assert_eq!(period_int_to_string(i32::MIN, true), "unknown");
}

#[test]
fn labels_before_the_year_zero() {
    assert_eq!(period_int_to_string(-1, false), "-1-Q4");
    assert_eq!(period_int_to_string(-2, false), "-1-Q3");
    assert_eq!(period_int_to_string(-3, false), "-1-Q2");
    assert_eq!(period_int_to_string(-4, false), "-1-Q1");
    assert_eq!(period_int_to_string(-5, false), "-2-Q4");
    assert_eq!(period_int_to_string(-4, true), "-1");
    assert_eq!(period_int_to_string(-3, true), "-1");
    assert_eq!(period_int_to_string(0, false), "0-Q1");
    assert_eq!(period_int_to_string(i32::MIN + 1, false), "-536870912-Q2");
    // the last second of the year -1
    assert_eq!(period_int_to_string(ts_to_period_int(-62167219201, false), false), "-1-Q4");
}

#[test]
fn label_names_the_period_of_a_moment() {
    assert_eq!(period_int_to_string(ts_to_period_int(1561939200, false), false), "2019-Q3");
    assert_eq!(period_int_to_string(ts_to_period_int(1561939200, true), true), "2019");
}

#[test]
fn keys_sort_as_moments_do() {
    let moments: Vec<i64> = vec![-100000000000, -1, 0, 1561939199, 1561939200, 1609459200];
    for pair in moments.windows(2) {
        assert!(ts_to_period_int(pair[0], false) <= ts_to_period_int(pair[1], false));
        assert!(ts_to_period_int(pair[0], true) <= ts_to_period_int(pair[1], true));
    }
}
