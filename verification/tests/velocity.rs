use gw2_arbitrage::calendar::{iso_date_of, parse_epoch};
use gw2_arbitrage::velocity::{
    daily_url, enough_coverage, groups_to_fetch, hourly_url, iso_date, iso_date_at, now_unix,
    unix_seconds, updated_entry, velocity_windows, Groups, Velocity, VelocityEntry, CACHE_TTL_SECS,
};

fn all(value: u32) -> Velocity<u32> {
    Velocity {
        h6: Some(value),
        h12: Some(value),
        h24: Some(value),
        d7: Some(value),
        w2: Some(value),
        m1: Some(value),
        m3: Some(value),
        m6: Some(value),
        y1: Some(value),
        y2: Some(value),
    }
}

#[test]
fn groups_are_merged_on_their_own() {
    let known = all(1);
    let fetched = all(2);
    let hourly = known.merge(fetched, true, false);
    assert_eq!((hourly.h6, hourly.h24, hourly.d7, hourly.y2), (Some(2), Some(2), Some(1), Some(1)));
    let daily = known.merge(fetched, false, true);
    assert_eq!((daily.h6, daily.h24, daily.d7, daily.y2), (Some(1), Some(1), Some(2), Some(2)));
    assert_eq!(known.merge(fetched, true, true), fetched);
    assert_eq!(known.merge(fetched, false, false), known);
    assert_eq!(Velocity::<u32>::unknown().m6, None);
}

#[test]
fn four_fifths_are_enough() {
    for expected in [6usize, 12, 24, 7, 30, 730] {
        for actual in 0..=expected {
            let enough = (actual as f64) >= 0.8 * (expected as f64) && actual > 0;
            assert_eq!(enough_coverage(actual, expected), enough);
        }
    }
    assert!(!enough_coverage(0, 0));
}

const NOW: i64 = 1_700_000_000;

fn hour(hours_back: i64) -> String {
    let t = NOW - hours_back * 3600;
    let day = t.div_euclid(86_400);
    format!("{}T{:02}:00:00Z", iso_date_of(day), t.rem_euclid(86_400) / 3600)
}

#[test]
fn hourly_windows_count_recent_rows() {
    // one row an hour for ten hours, one of them unreadable
    let mut dates: Vec<String> = (0..10).map(hour).collect();
    dates.insert(3, "yesterday".to_string());
    let w = velocity_windows(&Some(dates), &None, NOW);
    let h6 = w.h6.unwrap();
    let recent: Vec<usize> = vec![0, 1, 2, 4, 5, 6];
    assert_eq!(h6.rows, recent);
    assert_eq!((h6.divisor, h6.per_day), (6, 24));
    let h12 = w.h12.unwrap();
    assert_eq!((h12.rows.len(), h12.divisor), (10, 10));
    assert!(w.h24.is_none());
    assert!(w.d7.is_none());
}

#[test]
fn daily_windows_divide_by_the_days_spanned() {
    let today = NOW / 86_400;
    // six rows over seven days
    let dates: Vec<String> = [0, 1, 2, 3, 5, 6].iter().map(|back| iso_date_of(today - back)).collect();
    let w = velocity_windows(&None, &Some(dates), NOW);
    let d7 = w.d7.unwrap();
    assert_eq!(d7.rows, vec![0, 1, 2, 3, 4, 5]);
    assert_eq!((d7.divisor, d7.per_day), (7, 1));
    assert!(w.w2.is_none());
    assert!(w.h6.is_none());
    // too few rows, although they span the window
    let sparse: Vec<String> = [0, 6].iter().map(|back| iso_date_of(today - back)).collect();
    assert!(velocity_windows(&None, &Some(sparse), NOW).d7.is_none());
    // enough rows, all of the same day
    let dense = vec![iso_date_of(today); 7];
    assert!(velocity_windows(&None, &Some(dense), NOW).d7.is_none());
    assert!(velocity_windows(&None, &Some(vec![]), NOW).d7.is_none());
}

#[test]
fn history_addresses() {
    assert_eq!(hourly_url(19), "https://api.datawars2.ie/gw2/v2/history/hourly/json?itemID=19");
    assert_eq!(
        daily_url(19, "2024-01-31"),
        "https://api.datawars2.ie/gw2/v2/history/json?itemID=19&start=2024-01-31"
    );
}

#[test]
fn the_clock_is_read() {
    let now = now_unix();
    assert!(now > 1_700_000_000);
    assert!(now_unix() - now < 60);
    assert_eq!(unix_seconds(None), 0);
    assert_eq!(unix_seconds(Some(7)), 7);
    assert_eq!(unix_seconds(Some(u64::MAX)), i64::MAX);
    assert_eq!(iso_date_at(19_782 * 86_400 + 5, 1), "2024-02-28");
    assert_eq!(iso_date_at(0, 1), "1969-12-31");
    let start = parse_epoch(&iso_date(735)).unwrap();
    assert!((now - start) / 86_400 - 735 <= 1);
}

fn entry(fetched_at: i64, hourly: bool, daily: bool) -> VelocityEntry<u32> {
    VelocityEntry { fetched_at, hourly, daily, velocity: all(1) }
}

fn both() -> Groups {
    Groups { hourly: true, daily: true }
}

#[test]
fn fresh_entries_are_completed() {
    let missing = |e: &Option<VelocityEntry<u32>>, now| {
        let g = groups_to_fetch(e, now, both());
        (g.hourly, g.daily)
    };
    assert_eq!(missing(&None, NOW), (true, true));
    assert_eq!(missing(&Some(entry(NOW, true, false)), NOW), (false, true));
    assert_eq!(missing(&Some(entry(NOW, true, true)), NOW + CACHE_TTL_SECS - 1), (false, false));
    assert_eq!(missing(&Some(entry(NOW, true, true)), NOW + CACHE_TTL_SECS), (true, true));
}

#[test]
fn failed_downloads_fall_back_to_the_entry() {
    let e = updated_entry(
        Some(entry(NOW, true, false)),
        NOW + 9,
        Groups { hourly: false, daily: true },
        Ok(all(2)),
    )
    .unwrap();
    assert!(e.hourly && e.daily);
    assert_eq!((e.velocity.h6, e.velocity.d7), (Some(1), Some(2)));
    let kept = updated_entry(Some(entry(NOW, true, true)), NOW + 9, both(), Err("down".to_string())).unwrap();
    assert_eq!(kept.velocity, all(1));
    assert_eq!(kept.fetched_at, NOW);
    let none = updated_entry::<u32>(None, NOW, both(), Err("down".to_string()));
    assert!(matches!(none, Err(e) if e == "down"));
    let new = updated_entry(None, NOW, both(), Ok(all(3))).unwrap();
    assert_eq!((new.fetched_at, new.velocity), (NOW, all(3)));
}
