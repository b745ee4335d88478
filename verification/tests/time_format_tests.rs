use timelapse::time_format::{civil_time, relative_span, CivilTime, Span, SpanUnit};

#[test]
fn test_format_relative_time() {
    let now_ms: u64 = 1_700_000_000_000;
    assert_eq!(relative_span(now_ms, now_ms), Span::Ago { count: 0, unit: SpanUnit::Seconds });

    let one_hour_ago = now_ms - (3600 * 1000);
    assert_eq!(relative_span(one_hour_ago, now_ms), Span::Ago { count: 1, unit: SpanUnit::Hours });

    let one_day_ago = now_ms - (86400 * 1000);
    assert_eq!(relative_span(one_day_ago, now_ms), Span::Ago { count: 1, unit: SpanUnit::Days });
}

#[test]
fn spans_change_unit_at_the_edges() {
    let now: u64 = 10_000_000_000;
    let ago = |secs: u64| relative_span(now - secs * 1000, now);
    assert_eq!(ago(59), Span::Ago { count: 59, unit: SpanUnit::Seconds });
    assert_eq!(ago(60), Span::Ago { count: 1, unit: SpanUnit::Minutes });
    assert_eq!(ago(3599), Span::Ago { count: 59, unit: SpanUnit::Minutes });
    assert_eq!(ago(86399), Span::Ago { count: 23, unit: SpanUnit::Hours });
    assert_eq!(ago(604799), Span::Ago { count: 6, unit: SpanUnit::Days });
    assert_eq!(ago(604800), Span::Ago { count: 1, unit: SpanUnit::Weeks });
    assert_eq!(relative_span(now + 1, now), Span::InTheFuture);
    assert_eq!(relative_span(now - 999, now), Span::Ago { count: 0, unit: SpanUnit::Seconds });
}

#[test]
fn civil_time_of_known_moments() {
    assert_eq!(
        civil_time(0),
        CivilTime { year: 1970, month: 1, day: 1, hour: 0, minute: 0, second: 0 }
    );
    // 2024-01-03 14:30:00 UTC
    assert_eq!(
        civil_time(1_704_292_200_000),
        CivilTime { year: 2024, month: 1, day: 3, hour: 14, minute: 30, second: 0 }
    );
    // the leap day of 2000, one second before March
    assert_eq!(
        civil_time(951_868_799_999),
        CivilTime { year: 2000, month: 2, day: 29, hour: 23, minute: 59, second: 59 }
    );
    assert_eq!(
        civil_time(951_868_800_000),
        CivilTime { year: 2000, month: 3, day: 1, hour: 0, minute: 0, second: 0 }
    );
    // 2100 is no leap year
    assert_eq!(
        civil_time(4_107_542_400_000),
        CivilTime { year: 2100, month: 3, day: 1, hour: 0, minute: 0, second: 0 }
    );
    assert_eq!(
        civil_time(1_735_689_599_000),
        CivilTime { year: 2024, month: 12, day: 31, hour: 23, minute: 59, second: 59 }
    );
}
