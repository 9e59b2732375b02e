use gw2_arbitrage::calendar::{civil_from_days, days_from_civil, iso_date_of, parse_epoch};

#[test]
fn known_dates() {
    assert_eq!(days_from_civil(1970, 1, 1), 0);
    assert_eq!(days_from_civil(2000, 2, 29), 11_016);
    assert_eq!(days_from_civil(1969, 12, 31), -1);
    assert_eq!(civil_from_days(19_782), (2024, 2, 29));
    assert_eq!(civil_from_days(-719_468), (0, 3, 1));
}

#[test]
fn dates_and_days_are_inverse() {
    let mut days = -800_000;
    while days < 800_000 {
        let (y, m, d) = civil_from_days(days);
        assert_eq!(days_from_civil(y, m, d), days);
        days += 97;
    }
}

#[test]
fn dates_are_ordered_like_their_days() {
    assert!(days_from_civil(2023, 12, 31) < days_from_civil(2024, 1, 1));
    assert!(days_from_civil(2024, 2, 29) < days_from_civil(2024, 3, 1));
}

#[test]
fn dates_are_parsed() {
    assert_eq!(parse_epoch("1970-01-02"), Some(86_400));
    assert_eq!(parse_epoch("1970-01-01T05:59:59Z"), Some(21_599));
    assert_eq!(parse_epoch("2000-02-29T05:06:07Z"), Some(951_800_767));
    assert_eq!(parse_epoch("1970-01-01T05:06"), Some(18_360));
    assert_eq!(parse_epoch("1970-01-01T05"), Some(18_000));
    assert_eq!(parse_epoch("1970-01-01T05+02:00"), Some(18_000));
    assert_eq!(parse_epoch("1970-01-01T05:xx:07Z"), Some(18_000));
    assert_eq!(parse_epoch("2024-02-29T00:00:00Z"), Some(19_782 * 86_400));
    assert_eq!(parse_epoch("2024-13-01"), None);
    assert_eq!(parse_epoch("2024-00-01"), None);
    assert_eq!(parse_epoch("2024-01-32"), None);
    assert_eq!(parse_epoch("2024-1-1"), None);
    assert_eq!(parse_epoch("2024-01-0x"), None);
    assert_eq!(parse_epoch("2024-01-01Txx"), None);
    assert_eq!(parse_epoch(""), None);
}

#[test]
fn written_dates_read_back() {
    for days in [0, 11_016, 19_782, -1, 20_000] {
        let text = iso_date_of(days);
        assert_eq!(parse_epoch(&text), Some(days * 86_400));
    }
    assert_eq!(iso_date_of(19_782), "2024-02-29");
    assert_eq!(iso_date_of(-719_468), "0000-03-01");
}
