//! Civil dates and the temporal spellings.

use l_rs::calendar::{days_from_ymd, ymd_from_days};
use l_rs::literal::{fmt_date, fmt_minute, fmt_month, fmt_second, fmt_time, fmt_timespan, fmt_timestamp, hmsn};

#[test]
fn date_roundtrip() {
    for d in [-1000i32, 0, 1, 365, 10000, 100000] {
        let (y, m, dd) = ymd_from_days(d);
        assert_eq!(d, days_from_ymd(y, m, dd), "ymd round-trip at {d}");
    }
}

#[test]
fn epoch_is_2000_01_01() {
    assert_eq!(ymd_from_days(0), (2000, 1, 1));
    assert_eq!(days_from_ymd(2000, 1, 1), 0);
    assert_eq!(ymd_from_days(-1), (1999, 12, 31));
    assert_eq!(ymd_from_days(59), (2000, 2, 29));
    assert_eq!(ymd_from_days(366), (2001, 1, 1));
}

#[test]
fn days_from_ymd_is_injective_on_valid_dates() {
    assert_eq!(days_from_ymd(2024, 3, 1) - days_from_ymd(2024, 2, 28), 2);
    assert_eq!(days_from_ymd(2023, 3, 1) - days_from_ymd(2023, 2, 28), 1);
}

#[test]
fn literal_spellings() {
    assert_eq!(fmt_date(0), "2000.01.01");
    assert_eq!(fmt_month(13), "2001.02m");
    assert_eq!(fmt_month(-1), "1999.12m");
    assert_eq!(fmt_time(3_723_004), "01:02:03.004");
    assert_eq!(fmt_minute(61), "01:01");
    assert_eq!(fmt_second(3661), "01:01:01");
    assert_eq!(fmt_timestamp(86_400_000_000_001), "2000.01.02D00:00:00.000000001");
    assert_eq!(fmt_timestamp(-1), "1999.12.31D23:59:59.999999999");
    assert_eq!(fmt_timespan(-90_000_000_000_000), "-1D01:00:00.000000000");
    assert_eq!(hmsn(3_723_000_000_004), (1, 2, 3, 4));
}

#[test]
fn negative_clock_fields_keep_their_sign() {
    assert_eq!(fmt_time(-1), "00:00:00.-01");
    assert_eq!(fmt_minute(-61), "-1:-1");
}

#[test]
fn ymd_roundtrip_from_dates() {
    for (y, m, d) in [(2024, 2, 29), (1900, 3, 1), (1, 1, 1), (2000, 12, 31), (-44, 3, 15)] {
        assert_eq!(ymd_from_days(days_from_ymd(y, m, d)), (y, m, d));
    }
}
