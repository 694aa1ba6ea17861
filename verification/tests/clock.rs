use ceridwen::clock::Interval;
use ceridwen::clock::Timestamp;

#[test]
fn interval_of_days() {
    assert_eq!(Interval::days(1).nanos, 86_400_000_000_000);
    assert_eq!(Interval::days(-7).nanos, -604_800_000_000_000);
}

#[test]
fn plus_is_after_compares_the_sum() {
    let t = Timestamp { unix_nanos: 100 };
    assert!(t.plus_is_after(Interval { nanos: 5 }, Timestamp { unix_nanos: 104 }));
    assert!(!t.plus_is_after(Interval { nanos: 5 }, Timestamp { unix_nanos: 105 }));
    assert!(!t.plus_is_after(Interval { nanos: -5 }, Timestamp { unix_nanos: 100 }));
}

#[test]
fn plus_is_after_beyond_the_range() {
    let late = Timestamp { unix_nanos: i128::MAX };
    assert!(late.plus_is_after(Interval { nanos: 1 }, Timestamp { unix_nanos: i128::MAX }));
    let early = Timestamp { unix_nanos: i128::MIN };
    assert!(!early.plus_is_after(Interval { nanos: -1 }, Timestamp { unix_nanos: i128::MIN }));
}

#[test]
fn minus_goes_back() {
    let t = Timestamp { unix_nanos: 100 };
    assert_eq!(t.minus(Interval { nanos: 30 }), Timestamp { unix_nanos: 70 });
    let early = Timestamp { unix_nanos: i128::MIN };
    assert_eq!(early.minus(Interval { nanos: 1 }), early);
}

use ceridwen::error::CeridwenError;

#[test]
fn rfc2822_dates_are_parsed() {
    let at = Timestamp::parse_rfc2822("Fri, 02 Feb 2024 09:03:51 GMT").unwrap();
    assert_eq!(at, Timestamp { unix_nanos: 1_706_864_631_000_000_000 });
    let at = Timestamp::parse_rfc2822("Thu, 01 Jan 1970 01:00:00 +0100").unwrap();
    assert_eq!(at, Timestamp { unix_nanos: 0 });
    assert!(matches!(Timestamp::parse_rfc2822("2024-02-02"), Err(CeridwenError::TimeParsing(_))));
}

#[test]
fn instants_are_written_after_a_pattern() {
    let at = Timestamp { unix_nanos: 1_706_864_631_000_000_000 };
    assert_eq!(at.format("[year]-[month]-[day]").unwrap(), "2024-02-02");
    assert!(matches!(at.format("[nothing]"), Err(CeridwenError::TimeFormatting)));
}

#[test]
fn now_is_after_the_year_2020() {
    assert!(Timestamp::now().is_after(Timestamp { unix_nanos: 1_577_836_800_000_000_000 }));
}
