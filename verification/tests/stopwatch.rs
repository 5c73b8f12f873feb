use drsat::util::stopwatch::format_duration;
use time::Duration;

fn duration_str(duration: &Duration) -> String {
    let text = format_duration(duration.num_nanoseconds(), duration.num_milliseconds());
    String::from_utf8(text).expect("the text of a time is made of letters and digits")
}

#[test]
fn test_format_duration_1() {
    assert_eq!(duration_str(&Duration::nanoseconds(1)), "  1 ns");
    assert_eq!(duration_str(&Duration::nanoseconds(2)), "  2 ns");
    assert_eq!(duration_str(&Duration::nanoseconds(9)), "  9 ns");
    assert_eq!(duration_str(&Duration::nanoseconds(0)), "  0 ns");
}

#[test]
fn test_format_duration_2() {
    assert_eq!(duration_str(&Duration::nanoseconds(10)), " 10 ns");
    assert_eq!(duration_str(&Duration::nanoseconds(12)), " 12 ns");
    assert_eq!(duration_str(&Duration::nanoseconds(99)), " 99 ns");
}

#[test]
fn test_format_duration_3() {
    assert_eq!(duration_str(&Duration::nanoseconds(100)), "100 ns");
    assert_eq!(duration_str(&Duration::nanoseconds(123)), "123 ns");
    assert_eq!(duration_str(&Duration::nanoseconds(999)), "999 ns");
}

#[test]
fn test_format_duration_4() {
    assert_eq!(duration_str(&Duration::nanoseconds(1_000)), "1.000 us");
    assert_eq!(duration_str(&Duration::nanoseconds(1_234)), "1.234 us");
    assert_eq!(duration_str(&Duration::nanoseconds(9_999)), "9.999 us");
}

#[test]
fn test_format_duration_5() {
    assert_eq!(duration_str(&Duration::nanoseconds(10_000)), "10.00 us");
    assert_eq!(duration_str(&Duration::nanoseconds(12_344)), "12.34 us");
    assert_eq!(duration_str(&Duration::nanoseconds(12_345)), "12.35 us");
    assert_eq!(duration_str(&Duration::nanoseconds(99_994)), "99.99 us");
}

#[test]
fn test_format_duration_6() {
    assert_eq!(duration_str(&Duration::nanoseconds(99_995)), "100.0 us");
    assert_eq!(duration_str(&Duration::nanoseconds(123_449)), "123.4 us");
    assert_eq!(duration_str(&Duration::nanoseconds(123_450)), "123.5 us");
    assert_eq!(duration_str(&Duration::nanoseconds(999_949)), "999.9 us");
}

#[test]
fn test_format_duration_7() {
    assert_eq!(duration_str(&Duration::nanoseconds(999_950)), "1.000 ms");
    assert_eq!(duration_str(&Duration::nanoseconds(1_234_499)), "1.234 ms");
    assert_eq!(duration_str(&Duration::nanoseconds(1_234_500)), "1.235 ms");
    assert_eq!(duration_str(&Duration::nanoseconds(9_999_499)), "9.999 ms");
}

#[test]
fn test_format_duration_8() {
    assert_eq!(duration_str(&Duration::nanoseconds(9_999_500)), "10.00 ms");
    assert_eq!(duration_str(&Duration::nanoseconds(12_344_999)), "12.34 ms");
    assert_eq!(duration_str(&Duration::nanoseconds(12_345_000)), "12.35 ms");
    assert_eq!(duration_str(&Duration::nanoseconds(99_994_999)), "99.99 ms");
}

#[test]
fn test_format_duration_9() {
    assert_eq!(duration_str(&Duration::nanoseconds(99_995_000)), "100.0 ms");
    assert_eq!(duration_str(&Duration::nanoseconds(123_449_999)), "123.4 ms");
    assert_eq!(duration_str(&Duration::nanoseconds(123_450_000)), "123.5 ms");
    assert_eq!(duration_str(&Duration::nanoseconds(999_949_999)), "999.9 ms");
}

#[test]
fn test_format_duration_10() {
    assert_eq!(duration_str(&Duration::nanoseconds(999_950_000)), "1.000 s");
    assert_eq!(duration_str(&Duration::nanoseconds(1_234_499_999)), "1.234 s");
    assert_eq!(duration_str(&Duration::nanoseconds(1_234_500_000)), "1.235 s");
    assert_eq!(duration_str(&Duration::nanoseconds(9_999_499_999)), "9.999 s");
}

#[test]
fn test_format_duration_11() {
    assert_eq!(duration_str(&Duration::nanoseconds(9_999_500_000)), "10.00 s");
    assert_eq!(duration_str(&Duration::nanoseconds(12_344_999_999)), "12.34 s");
    assert_eq!(duration_str(&Duration::nanoseconds(12_345_000_000)), "12.35 s");
    assert_eq!(duration_str(&Duration::nanoseconds(99_994_999_999)), "99.99 s");
}

#[test]
fn test_format_duration_12() {
    assert_eq!(duration_str(&Duration::nanoseconds(99_995_000_000)), "100.0 s");
    assert_eq!(duration_str(&Duration::nanoseconds(123_449_999_999)), "123.4 s");
    assert_eq!(duration_str(&Duration::nanoseconds(123_450_000_000)), "123.5 s");
    assert_eq!(duration_str(&Duration::nanoseconds(999_949_999_999)), "999.9 s");
}

#[test]
fn test_format_duration_13() {
    assert_eq!(duration_str(&Duration::nanoseconds(999_950_000_000)), "1 000 s");
    assert_eq!(duration_str(&Duration::nanoseconds(1_234_499_999_999)), "1 234 s");
    assert_eq!(duration_str(&Duration::nanoseconds(1_234_500_000_000)), "1 235 s");
    assert_eq!(duration_str(&Duration::nanoseconds(9_999_499_999_999)), "9 999 s");
}

#[test]
fn test_format_duration_14() {
    assert_eq!(duration_str(&Duration::nanoseconds(9_999_500_000_000)), "10 000 s");
    assert_eq!(duration_str(&Duration::nanoseconds(12_344_499_999_999)), "12 344 s");
    assert_eq!(duration_str(&Duration::nanoseconds(12_344_500_000_000)), "12 345 s");
    assert_eq!(duration_str(&Duration::nanoseconds(99_999_499_999_999)), "99 999 s");
}

#[test]
fn test_format_duration_15() {
    assert_eq!(duration_str(&Duration::nanoseconds(99_999_500_000_000)), "100 000 s");
    assert_eq!(duration_str(&Duration::nanoseconds(123_444_499_999_999)), "123 444 s");
    assert_eq!(duration_str(&Duration::nanoseconds(123_444_500_000_000)), "123 445 s");
    assert_eq!(duration_str(&Duration::nanoseconds(999_999_499_999_999)), "999 999 s");
}

#[test]
fn test_format_duration_16() {
    assert_eq!(duration_str(&Duration::nanoseconds(999_999_500_000_000)), "1 000 000 s");
    assert_eq!(
        duration_str(&Duration::nanoseconds(1_234_444_499_999_999)),
        "1 234 444 s"
    );
    assert_eq!(
        duration_str(&Duration::nanoseconds(1_234_444_500_000_000)),
        "1 234 445 s"
    );
    assert_eq!(
        duration_str(&Duration::nanoseconds(9_999_999_499_999_999)),
        "9 999 999 s"
    );
}

#[test]
fn test_format_duration_17() {
    assert_eq!(
        duration_str(&Duration::nanoseconds(9_999_999_500_000_000)),
        "10 000 000 s"
    );
    assert_eq!(
        duration_str(&Duration::nanoseconds(12_344_444_499_999_999)),
        "12 344 444 s"
    );
    assert_eq!(
        duration_str(&Duration::nanoseconds(12_344_444_500_000_000)),
        "12 344 445 s"
    );
    assert_eq!(
        duration_str(&Duration::nanoseconds(99_999_999_499_999_999)),
        "99 999 999 s"
    );
}

#[test]
fn test_format_duration_18() {
    assert_eq!(
        duration_str(&Duration::nanoseconds(99_999_999_500_000_000)),
        "100 000 000 s"
    );
    assert_eq!(
        duration_str(&Duration::nanoseconds(123_444_444_499_999_999)),
        "123 444 444 s"
    );
    assert_eq!(
        duration_str(&Duration::nanoseconds(123_444_444_500_000_000)),
        "123 444 445 s"
    );
    assert_eq!(
        duration_str(&Duration::nanoseconds(999_999_999_499_999_999)),
        "999 999 999 s"
    );
}

#[test]
fn test_format_duration_19() {
    assert_eq!(
        duration_str(&Duration::nanoseconds(999_999_999_500_000_000)),
        "1 000 000 000 s"
    );
    assert_eq!(
        duration_str(&Duration::nanoseconds(1_234_444_444_499_999_999)),
        "1 234 444 444 s"
    );
    assert_eq!(
        duration_str(&Duration::nanoseconds(1_234_444_444_500_000_000)),
        "1 234 444 445 s"
    );
    assert_eq!(
        duration_str(&Duration::microseconds(9_999_999_999_499_999)),
        "9 999 999 999 s"
    );
}

#[test]
fn test_format_duration_20() {
    assert_eq!(
        duration_str(&Duration::microseconds(9_999_999_999_500_000)),
        "10 000 000 000 s"
    );
    assert_eq!(
        duration_str(&Duration::microseconds(12_344_444_444_499_999)),
        "12 344 444 444 s"
    );
    assert_eq!(
        duration_str(&Duration::microseconds(12_344_444_444_500_000)),
        "12 344 444 445 s"
    );
    assert_eq!(
        duration_str(&Duration::microseconds(99_999_999_999_499_999)),
        "99 999 999 999 s"
    );
}

#[test]
fn test_format_duration_21() {
    assert_eq!(
        duration_str(&Duration::microseconds(99_999_999_999_500_000)),
        "100 000 000 000 s"
    );
    assert_eq!(
        duration_str(&Duration::microseconds(123_444_444_444_499_999)),
        "123 444 444 444 s"
    );
    assert_eq!(
        duration_str(&Duration::microseconds(123_444_444_444_500_000)),
        "123 444 444 445 s"
    );
    assert_eq!(
        duration_str(&Duration::microseconds(999_999_999_999_499_999)),
        "999 999 999 999 s"
    );
}

#[test]
fn test_format_duration_22() {
    assert_eq!(
        duration_str(&Duration::microseconds(999_999_999_999_500_000)),
        "1 000 000 000 000 s"
    );
    assert_eq!(
        duration_str(&Duration::microseconds(1_234_444_444_444_499_999)),
        "1 234 444 444 444 s"
    );
    assert_eq!(
        duration_str(&Duration::microseconds(1_234_444_444_444_500_000)),
        "1 234 444 444 445 s"
    );
    assert_eq!(
        duration_str(&Duration::milliseconds(9_999_999_999_999_499)),
        "9 999 999 999 999 s"
    );
}
