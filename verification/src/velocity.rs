//! How fast items sell, from the history of the trading post.
//!
//! The velocity of an item is the number of units sold per day over a window of
//! time that ends now. Which rows of the history count, and what their sum is
//! divided by, is decided here; the sales themselves may be any kind of number.

use crate::cache::CacheFile;
use crate::calendar::{epoch_of, is_iso_date_of, iso_date_of, parse_epoch};
use crate::text::{decimal, to_decimal};
use std::time::SystemTime;
use vstd::prelude::*;
use vstd::string::*;

verus! {

/// Units sold per day in each window, where they are known.
#[derive(Clone, Copy, Debug, PartialEq, Eq)]
pub struct Velocity<T> {
    pub h6: Option<T>,
    pub h12: Option<T>,
    pub h24: Option<T>,
    pub d7: Option<T>,
    pub w2: Option<T>,
    pub m1: Option<T>,
    pub m3: Option<T>,
    pub m6: Option<T>,
    pub y1: Option<T>,
    pub y2: Option<T>,
}

/// Nothing is known.
pub open spec fn unknown_velocity<T>() -> Velocity<T> {
    Velocity {
        h6: None,
        h12: None,
        h24: None,
        d7: None,
        w2: None,
        m1: None,
        m3: None,
        m6: None,
        y1: None,
        y2: None,
    }
}

/// `known` with the windows of the groups that were fetched taken from `fetched`.
pub open spec fn merged<T>(
    known: Velocity<T>,
    fetched: Velocity<T>,
    hourly: bool,
    daily: bool,
) -> Velocity<T> {
    let h = if hourly {
        fetched
    } else {
        known
    };
    let d = if daily {
        fetched
    } else {
        known
    };
    Velocity {
        h6: h.h6,
        h12: h.h12,
        h24: h.h24,
        d7: d.d7,
        w2: d.w2,
        m1: d.m1,
        m3: d.m3,
        m6: d.m6,
        y1: d.y1,
        y2: d.y2,
    }
}

impl<T> Velocity<T> {
    /// Nothing is known.
    pub fn unknown() -> (v: Velocity<T>)
        ensures
            v == unknown_velocity::<T>(),
    {
        Velocity {
            h6: None,
            h12: None,
            h24: None,
            d7: None,
            w2: None,
            m1: None,
            m3: None,
            m6: None,
            y1: None,
            y2: None,
        }
    }

    /// Takes over the windows of the groups that were fetched, and leaves the
    /// others as they are.
    pub fn merge(self, fetched: Velocity<T>, hourly: bool, daily: bool) -> (v: Velocity<T>)
        ensures
            v == merged(self, fetched, hourly, daily),
    {
        let (h6, h12, h24) = if hourly {
            (fetched.h6, fetched.h12, fetched.h24)
        } else {
            (self.h6, self.h12, self.h24)
        };
        let (d7, w2, m1, m3, m6, y1, y2) = if daily {
            (
                fetched.d7,
                fetched.w2,
                fetched.m1,
                fetched.m3,
                fetched.m6,
                fetched.y1,
                fetched.y2,
            )
        } else {
            (self.d7, self.w2, self.m1, self.m3, self.m6, self.y1, self.y2)
        };
        Velocity { h6, h12, h24, d7, w2, m1, m3, m6, y1, y2 }
    }
}

/// Fetching one group never changes the other, and fetching both leaves nothing
/// of what was known.
pub proof fn law_groups_are_independent<T>(known: Velocity<T>, a: Velocity<T>, b: Velocity<T>)
    ensures
        merged(merged(known, a, true, false), b, false, true) == merged(
            merged(known, b, false, true),
            a,
            true,
            false,
        ),
        merged(known, a, true, true) == a,
        merged(known, a, false, false) == known,
{
}

/// At least 80% of the expected buckets are there, and not none.
pub open spec fn is_covered(actual: int, expected: int) -> bool {
    5 * actual >= 4 * expected && actual > 0
}

/// Whether enough of the expected buckets are there to trust the rest.
pub fn enough_coverage(actual: usize, expected: usize) -> (b: bool)
    ensures
        b == is_covered(actual as int, expected as int),
{
    5 * (actual as u128) >= 4 * (expected as u128) && actual > 0
}

/// Rows that count for a window, what their sum is divided by, and how many
/// times that makes a day.
#[derive(Clone, Debug)]
pub struct SalesWindow {
    pub rows: Vec<usize>,
    pub divisor: u64,
    pub per_day: u64,
}

/// A row counts: its date can be read and lies within the last `seconds`.
pub open spec fn is_recent(date: String, now: i64, seconds: int) -> bool {
    match time_of(date) {
        Some(t) => t >= now - seconds,
        None => false,
    }
}

/// Seconds since 1970 that a date names, where it can be read.
pub open spec fn time_of(date: String) -> Option<int> {
    epoch_of(vstd::utf8::encode_utf8(date@))
}

/// The rows that count, in their order.
pub open spec fn recent_rows(dates: Seq<String>, now: i64, seconds: int) -> Seq<int>
    decreases dates.len(),
{
    if dates.len() == 0 {
        Seq::empty()
    } else {
        let earlier = recent_rows(dates.drop_last(), now, seconds);
        if is_recent(dates.last(), now, seconds) {
            earlier.push(dates.len() - 1)
        } else {
            earlier
        }
    }
}

/// The positions as numbers.
pub open spec fn positions(rows: Seq<usize>) -> Seq<int> {
    rows.map_values(|r: usize| r as int)
}

/// The times that the rows name.
pub open spec fn times_of(dates: Seq<String>, rows: Seq<int>) -> Seq<int> {
    rows.map_values(|r: int| time_of(dates[r])->0)
}

/// Latest of the times.
pub open spec fn latest(times: Seq<int>) -> int
    decreases times.len(),
{
    if times.len() <= 1 {
        times[0]
    } else if latest(times.drop_last()) < times.last() {
        times.last()
    } else {
        latest(times.drop_last())
    }
}

/// Earliest of the times.
pub open spec fn earliest(times: Seq<int>) -> int
    decreases times.len(),
{
    if times.len() <= 1 {
        times[0]
    } else if times.last() < earliest(times.drop_last()) {
        times.last()
    } else {
        earliest(times.drop_last())
    }
}

/// Days from the earliest to the latest of the times, both counted.
pub open spec fn span_of(times: Seq<int>) -> int {
    (latest(times) - earliest(times)) / 86400 + 1
}

/// A window of so many hours over a history with a row for each hour.
pub open spec fn is_hourly_window(
    window: Option<SalesWindow>,
    dates: Seq<String>,
    now: i64,
    hours: int,
) -> bool {
    let rows = recent_rows(dates, now, hours * 3600);
    match window {
        Some(w) => is_covered(rows.len() as int, hours) && positions(w.rows@) == rows && w.divisor
            == rows.len() && w.per_day == 24,
        None => !is_covered(rows.len() as int, hours),
    }
}

/// A window of so many days over a history with a row for each day. Both the
/// rows and the days that they span have to cover it; the sales are spread over
/// the days that they span, since a day without a row is a day without sales.
pub open spec fn is_daily_window(
    window: Option<SalesWindow>,
    dates: Seq<String>,
    now: i64,
    days: int,
) -> bool {
    let rows = recent_rows(dates, now, days * 86400);
    let span = span_of(times_of(dates, rows));
    match window {
        Some(w) => is_covered(rows.len() as int, days) && is_covered(span, days) && positions(
            w.rows@,
        ) == rows && w.divisor == span && w.per_day == 1,
        None => !is_covered(rows.len() as int, days) || !is_covered(span, days),
    }
}

/// Every row that counts is a row of the history.
pub proof fn law_recent_rows_exist(dates: Seq<String>, now: i64, seconds: int, i: int)
    requires
        0 <= i < recent_rows(dates, now, seconds).len(),
    ensures
        0 <= recent_rows(dates, now, seconds)[i] < dates.len(),
        is_recent(dates[recent_rows(dates, now, seconds)[i]], now, seconds),
    decreases dates.len(),
{
    let earlier = recent_rows(dates.drop_last(), now, seconds);
    if i < earlier.len() {
        law_recent_rows_exist(dates.drop_last(), now, seconds, i);
    }
}

/// The rows that count, with the latest and the earliest time among them.
fn find_recent(dates: &Vec<String>, now: i64, seconds: i64) -> (res: (Vec<usize>, i64, i64))
    ensures
        positions(res.0@) == recent_rows(dates@, now, seconds as int),
        res.0@.len() > 0 ==> {
            let times = times_of(dates@, recent_rows(dates@, now, seconds as int));
            &&& res.1 == latest(times)
            &&& res.2 == earliest(times)
            &&& -400_000_000_000 <= res.2 <= res.1 <= 400_000_000_000
        },
{
    let cutoff: i128 = (now as i128) - (seconds as i128);
    let mut rows: Vec<usize> = Vec::new();
    let mut late: i64 = 0;
    let mut early: i64 = 0;
    let mut i: usize = 0;
    assert(dates@.take(0) =~= Seq::empty());
    assert(positions(rows@) =~= recent_rows(dates@.take(0), now, seconds as int));
    while i < dates.len()
        invariant
            i <= dates.len(),
            cutoff == now - seconds,
            positions(rows@) == recent_rows(dates@.take(i as int), now, seconds as int),
            rows@.len() > 0 ==> {
                let times = times_of(dates@, positions(rows@));
                &&& late == latest(times)
                &&& early == earliest(times)
                &&& -400_000_000_000 <= early <= late <= 400_000_000_000
            },
        decreases dates.len() - i,
    {
        let ghost before = rows@;
        proof {
            assert(dates@.take(i + 1).drop_last() =~= dates@.take(i as int));
            assert(dates@.take(i + 1).last() == dates@[i as int]);
        }
        if let Some(t) = parse_epoch(dates[i].as_str()) {
            if (t as i128) >= cutoff {
                rows.push(i);
                proof {
                    assert(positions(rows@) =~= positions(before).push(i as int));
                    let times = times_of(dates@, positions(rows@));
                    let earlier = times_of(dates@, positions(before));
                    assert(times =~= earlier.push(t as int));
                    assert(times.drop_last() =~= earlier);
                }
                if rows.len() == 1 {
                    late = t;
                    early = t;
                } else {
                    if late < t {
                        late = t;
                    }
                    if t < early {
                        early = t;
                    }
                }
            }
        }
        i += 1;
    }
    assert(dates@.take(i as int) =~= dates@);
    (rows, late, early)
}

/// A window of so many hours over a history with a row for each hour.
fn hourly_window(dates: &Vec<String>, now: i64, hours: u32) -> (window: Option<SalesWindow>)
    requires
        0 < hours <= 1000,
    ensures
        is_hourly_window(window, dates@, now, hours as int),
{
    let (rows, _, _) = find_recent(dates, now, (hours as i64) * 3600);
    assert(positions(rows@).len() == rows@.len());
    if enough_coverage(rows.len(), hours as usize) {
        let divisor: u64 = rows.len() as u64;
        Some(SalesWindow { rows, divisor, per_day: 24 })
    } else {
        None
    }
}

/// A window of so many days over a history with a row for each day.
fn daily_window(dates: &Vec<String>, now: i64, days: u32) -> (window: Option<SalesWindow>)
    requires
        0 < days <= 1000,
    ensures
        is_daily_window(window, dates@, now, days as int),
{
    let (rows, late, early) = find_recent(dates, now, (days as i64) * 86400);
    assert(positions(rows@).len() == rows@.len());
    if !enough_coverage(rows.len(), days as usize) {
        return None;
    }
    let span: i64 = (late - early) / 86400 + 1;
    if 5 * span >= 4 * (days as i64) {
        Some(SalesWindow { rows, divisor: span as u64, per_day: 1 })
    } else {
        None
    }
}

/// The windows of a history by the hour and of one by the day, where they were
/// fetched.
pub open spec fn are_windows(
    windows: Velocity<SalesWindow>,
    hourly: Option<Seq<String>>,
    daily: Option<Seq<String>>,
    now: i64,
) -> bool {
    &&& match hourly {
        Some(dates) => {
            &&& is_hourly_window(windows.h6, dates, now, 6)
            &&& is_hourly_window(windows.h12, dates, now, 12)
            &&& is_hourly_window(windows.h24, dates, now, 24)
        },
        None => windows.h6 is None && windows.h12 is None && windows.h24 is None,
    }
    &&& match daily {
        Some(dates) => {
            &&& is_daily_window(windows.d7, dates, now, 7)
            &&& is_daily_window(windows.w2, dates, now, 14)
            &&& is_daily_window(windows.m1, dates, now, 30)
            &&& is_daily_window(windows.m3, dates, now, 90)
            &&& is_daily_window(windows.m6, dates, now, 180)
            &&& is_daily_window(windows.y1, dates, now, 365)
            &&& is_daily_window(windows.y2, dates, now, 730)
        },
        None => {
            &&& windows.d7 is None
            &&& windows.w2 is None
            &&& windows.m1 is None
            &&& windows.m3 is None
            &&& windows.m6 is None
            &&& windows.y1 is None
            &&& windows.y2 is None
        },
    }
}

/// The dates that an optional history holds.
pub open spec fn optional_dates(dates: Option<Vec<String>>) -> Option<Seq<String>> {
    match dates {
        Some(dates) => Some(dates@),
        None => None,
    }
}

/// Finds the windows, given the dates of the rows of each history that was
/// fetched.
pub fn velocity_windows(
    hourly: &Option<Vec<String>>,
    daily: &Option<Vec<String>>,
    now: i64,
) -> (windows: Velocity<SalesWindow>)
    ensures
        are_windows(windows, optional_dates(*hourly), optional_dates(*daily), now),
{
    let mut windows: Velocity<SalesWindow> = Velocity::unknown();
    if let Some(dates) = hourly {
        windows.h6 = hourly_window(dates, now, 6);
        windows.h12 = hourly_window(dates, now, 12);
        windows.h24 = hourly_window(dates, now, 24);
    }
    if let Some(dates) = daily {
        windows.d7 = daily_window(dates, now, 7);
        windows.w2 = daily_window(dates, now, 14);
        windows.m1 = daily_window(dates, now, 30);
        windows.m3 = daily_window(dates, now, 90);
        windows.m6 = daily_window(dates, now, 180);
        windows.y1 = daily_window(dates, now, 365);
        windows.y2 = daily_window(dates, now, 730);
    }
    windows
}

/// Address of the history of an item by the hour.
pub fn hourly_url(item_id: u32) -> (url: String)
    ensures
        url@ == "https://api.datawars2.ie/gw2/v2/history/hourly/json?itemID="@ + decimal(
            item_id as nat,
        ),
{
    String::from_str("https://api.datawars2.ie/gw2/v2/history/hourly/json?itemID=").concat(
        to_decimal(item_id as u64).as_str(),
    )
}

/// Address of the history of an item by the day, from a date on.
pub fn daily_url(item_id: u32, start: &str) -> (url: String)
    ensures
        url@ == "https://api.datawars2.ie/gw2/v2/history/json?itemID="@ + decimal(item_id as nat)
            + "&start="@ + start@,
{
    String::from_str("https://api.datawars2.ie/gw2/v2/history/json?itemID=").concat(
        to_decimal(item_id as u64).as_str(),
    ).concat("&start=").concat(start)
}

/// Days that the history by the day is asked for: a little more than the
/// longest window.
pub const DAILY_HISTORY_DAYS: i64 = 735;

#[verifier::external_type_specification]
#[verifier::external_body]
pub struct ExSystemTime(std::time::SystemTime);

/// The time, by [`std::time::SystemTime::now`]. Nothing is said of it.
#[verifier::external_body]
fn system_time() -> (time: SystemTime) {
    SystemTime::now()
}

/// Whole seconds from 1970 to a time, by
/// [`std::time::SystemTime::duration_since`], unless the time lies before it.
/// Nothing is said of the number.
#[verifier::external_body]
fn seconds_since_epoch(time: &SystemTime) -> (seconds: Option<u64>) {
    time.duration_since(std::time::UNIX_EPOCH).ok().map(|d| d.as_secs())
}

/// Seconds since 1970, given what the clock shows: none, where it shows a time
/// before.
pub fn unix_seconds(shown: Option<u64>) -> (now: i64)
    ensures
        now == (match shown {
            Some(seconds) => if seconds <= i64::MAX {
                seconds as int
            } else {
                i64::MAX as int
            },
            None => 0,
        }),
{
    match shown {
        Some(seconds) => if seconds <= i64::MAX as u64 {
            seconds as i64
        } else {
            i64::MAX
        },
        None => 0,
    }
}

/// Seconds since 1970.
pub fn now_unix() -> (now: i64)
    ensures
        now >= 0,
{
    unix_seconds(seconds_since_epoch(&system_time()))
}

/// The date `days_back` days before the time `now`, as `YYYY-MM-DD`.
pub fn iso_date_at(now: i64, days_back: i64) -> (date: String)
    requires
        0 <= now,
        -8_000_000_000_000_000_000 <= days_back <= 8_000_000_000_000_000_000,
    ensures
        is_iso_date_of(date@, now / 86400 - days_back),
{
    iso_date_of(now / 86400 - days_back)
}

/// The date `days_back` days ago, as `YYYY-MM-DD`.
pub fn iso_date(days_back: i64) -> (date: String)
    requires
        -8_000_000_000_000_000_000 <= days_back <= 8_000_000_000_000_000_000,
    ensures
        exists|now: i64| now >= 0 && #[trigger] is_iso_date_of(date@, now / 86400 - days_back),
{
    let now: i64 = now_unix();
    let date = iso_date_at(now, days_back);
    assert(is_iso_date_of(date@, now / 86400 - days_back));
    date
}

/// Name of the file with the velocity of an item.
pub open spec fn velocity_name(item_id: u32) -> Seq<char> {
    decimal(item_id as nat) + ".json"@
}

/// File with the velocity of an item.
pub fn velocity_path(velocity_dir: &str, item_id: u32) -> (file: CacheFile)
    ensures
        file.dir@ == velocity_dir@,
        file.name@ == velocity_name(item_id),
{
    CacheFile {
        dir: String::from_str(velocity_dir),
        name: to_decimal(item_id as u64).concat(".json"),
    }
}

/// Seconds for which a velocity that was fetched is used.
pub const CACHE_TTL_SECS: i64 = 86_400;

/// What a file keeps of a velocity: when it was fetched, and which groups were.
#[derive(Clone, Debug)]
pub struct VelocityEntry<T> {
    pub fetched_at: i64,
    pub hourly: bool,
    pub daily: bool,
    pub velocity: Velocity<T>,
}

/// The entry can still be used.
pub open spec fn is_fresh<T>(entry: VelocityEntry<T>, now: i64) -> bool {
    now - entry.fetched_at < CACHE_TTL_SECS
}

/// Groups to download.
#[derive(Clone, Copy, Debug, PartialEq, Eq, Structural)]
pub struct Groups {
    pub hourly: bool,
    pub daily: bool,
}

/// The groups that are wanted, and that no fresh entry holds.
pub open spec fn missing_groups<T>(
    entry: Option<VelocityEntry<T>>,
    now: i64,
    wanted: Groups,
) -> Groups {
    match entry {
        Some(e) if is_fresh(e, now) => Groups {
            hourly: wanted.hourly && !e.hourly,
            daily: wanted.daily && !e.daily,
        },
        _ => wanted,
    }
}

impl<T> VelocityEntry<T> {
    /// Whether the entry can still be used.
    pub fn fresh(&self, now: i64) -> (b: bool)
        ensures
            b == is_fresh(*self, now),
    {
        (now as i128) - (self.fetched_at as i128) < (CACHE_TTL_SECS as i128)
    }
}

/// Decides which groups to download.
pub fn groups_to_fetch<T>(entry: &Option<VelocityEntry<T>>, now: i64, wanted: Groups) -> (missing:
    Groups)
    ensures
        missing == missing_groups(*entry, now, wanted),
{
    match entry {
        Some(e) => if e.fresh(now) {
            Groups { hourly: wanted.hourly && !e.hourly, daily: wanted.daily && !e.daily }
        } else {
            wanted
        },
        None => wanted,
    }
}

/// The entry after the missing groups were downloaded: a fresh one gains them,
/// and one that is too old is replaced. When the download failed, whatever there
/// was is used.
pub open spec fn entry_after<T>(
    entry: Option<VelocityEntry<T>>,
    now: i64,
    missing: Groups,
    downloaded: Result<Velocity<T>, String>,
) -> Result<VelocityEntry<T>, String> {
    match downloaded {
        Ok(v) => match entry {
            Some(e) if is_fresh(e, now) => Ok(
                VelocityEntry {
                    fetched_at: e.fetched_at,
                    hourly: e.hourly || missing.hourly,
                    daily: e.daily || missing.daily,
                    velocity: merged(e.velocity, v, missing.hourly, missing.daily),
                },
            ),
            _ => Ok(
                VelocityEntry {
                    fetched_at: now,
                    hourly: missing.hourly,
                    daily: missing.daily,
                    velocity: merged(
                        unknown_velocity(),
                        v,
                        missing.hourly,
                        missing.daily,
                    ),
                },
            ),
        },
        Err(error) => match entry {
            Some(e) => Ok(e),
            None => Err(error),
        },
    }
}

/// The entry after a download.
pub fn updated_entry<T>(
    entry: Option<VelocityEntry<T>>,
    now: i64,
    missing: Groups,
    downloaded: Result<Velocity<T>, String>,
) -> (res: Result<VelocityEntry<T>, String>)
    ensures
        res == entry_after(entry, now, missing, downloaded),
{
    match downloaded {
        Ok(v) => {
            if let Some(e) = entry {
                if e.fresh(now) {
                    return Ok(
                        VelocityEntry {
                            fetched_at: e.fetched_at,
                            hourly: e.hourly || missing.hourly,
                            daily: e.daily || missing.daily,
                            velocity: e.velocity.merge(v, missing.hourly, missing.daily),
                        },
                    );
                }
            }
            Ok(
                VelocityEntry {
                    fetched_at: now,
                    hourly: missing.hourly,
                    daily: missing.daily,
                    velocity: Velocity::unknown().merge(v, missing.hourly, missing.daily),
                },
            )
        },
        Err(error) => match entry {
            Some(e) => Ok(e),
            None => Err(error),
        },
    }
}

/// After a download that worked every wanted group is there, and nothing is
/// missing any more.
pub proof fn law_download_completes<T>(
    entry: Option<VelocityEntry<T>>,
    now: i64,
    wanted: Groups,
    v: Velocity<T>,
)
    ensures
        entry_after(entry, now, missing_groups(entry, now, wanted), Ok(v)) matches Ok(e) && {
            &&& wanted.hourly ==> e.hourly
            &&& wanted.daily ==> e.daily
            &&& is_fresh(e, now)
            &&& missing_groups(Some(e), now, wanted) == (Groups { hourly: false, daily: false })
        },
{
}

/// The rows of a window are those whose date lies at or after a time.
pub open spec fn holds_rows_since(
    window: Option<SalesWindow>,
    dates: Seq<String>,
    from: int,
) -> bool {
    window matches Some(w) ==> forall|r: usize| #[trigger]
        w.rows@.contains(r) <==> r < dates.len() && (time_of(dates[r as int]) matches Some(t) && t
            >= from)
}

/// Every row of one window is a row of the other, where both are known.
pub open spec fn is_within(a: Option<SalesWindow>, b: Option<SalesWindow>) -> bool {
    match (a, b) {
        (Some(v), Some(w)) => forall|r: usize| #[trigger]
            v.rows@.contains(r) ==> w.rows@.contains(r),
        _ => true,
    }
}

/// The same number of sales in every row makes 24 times as many a day.
pub open spec fn spreads_over_rows(window: Option<SalesWindow>) -> bool {
    window matches Some(w) ==> w.divisor > 0 && w.rows@.len() * w.per_day == 24 * w.divisor
}

/// Sales are spread over the days from the first to the last row: no two rows lie
/// further apart, and two of them lie that far apart.
pub open spec fn spreads_over_days(window: Option<SalesWindow>, dates: Seq<String>) -> bool {
    window matches Some(w) ==> {
        &&& w.per_day == 1
        &&& forall|a: usize, b: usize| #[trigger]
            w.rows@.contains(a) && #[trigger] w.rows@.contains(b) ==> time_of(dates[a as int])->0
                - time_of(dates[b as int])->0 < w.divisor * 86400
        &&& exists|a: usize, b: usize| #[trigger]
            w.rows@.contains(a) && #[trigger] w.rows@.contains(b) && time_of(dates[a as int])->0
                - time_of(dates[b as int])->0 >= (w.divisor - 1) * 86400
    }
}

/// At least 80% of `expected` rows have dates at or after a time: those of the
/// sample.
pub open spec fn has_enough_rows(
    dates: Seq<String>,
    sample: Seq<usize>,
    from: int,
    expected: int,
) -> bool {
    &&& sample.no_duplicates()
    &&& 10 * sample.len() >= 8 * expected
    &&& forall|i: int|
        0 <= i < sample.len() ==> (#[trigger] sample[i]) < dates.len() && (time_of(
            dates[sample[i] as int],
        ) matches Some(t) && t >= from)
}

/// Two rows of the sample lie at least 80% of `expected` days apart, the first and
/// the last day counted.
pub open spec fn spans_enough_days(
    dates: Seq<String>,
    sample: Seq<usize>,
    expected: int,
) -> bool {
    exists|i: int, j: int|
        0 <= i < sample.len() && 0 <= j < sample.len() && 10 * ((time_of(
            dates[(#[trigger] sample[i]) as int],
        )->0 - time_of(dates[(#[trigger] sample[j]) as int])->0) / 86400 + 1) >= 8 * expected
}

proof fn lemma_recent_rows_are(dates: Seq<String>, now: i64, seconds: int)
    ensures
        forall|r: int| #[trigger]
            recent_rows(dates, now, seconds).contains(r) <==> 0 <= r < dates.len() && (time_of(
                dates[r],
            ) matches Some(t) && t >= now - seconds),
        recent_rows(dates, now, seconds).no_duplicates(),
    decreases dates.len(),
{
    let rows = recent_rows(dates, now, seconds);
    if dates.len() > 0 {
        let rest = dates.drop_last();
        let earlier = recent_rows(rest, now, seconds);
        let n: int = dates.len() - 1;
        lemma_recent_rows_are(rest, now, seconds);
        assert(!earlier.contains(n));
        assert forall|r: int| #[trigger] rows.contains(r) <==> 0 <= r < dates.len() && (time_of(
            dates[r],
        ) matches Some(t) && t >= now - seconds) by {
            if earlier.contains(r) {
                assert(rows[earlier.index_of(r)] == r);
            }
            if is_recent(dates.last(), now, seconds) {
                assert(rows[earlier.len() as int] == n);
                if rows.contains(r) && r != n {
                    assert(earlier[rows.index_of(r)] == r);
                }
            }
            if 0 <= r < n {
                assert(rest[r] == dates[r]);
                assert(earlier.contains(r) <==> (time_of(dates[r]) matches Some(t) && t >= now
                    - seconds));
            }
        }
        assert(rows.no_duplicates()) by {
            assert forall|i: int, j: int| 0 <= i < rows.len() && 0 <= j < rows.len() && i
                != j implies rows[i] != rows[j] by {
                if i < earlier.len() {
                    assert(earlier.contains(rows[i]));
                }
                if j < earlier.len() {
                    assert(earlier.contains(rows[j]));
                }
            }
        }
    }
}

proof fn lemma_window_rows(rows: Seq<usize>, dates: Seq<String>, now: i64, seconds: int)
    requires
        positions(rows) == recent_rows(dates, now, seconds),
    ensures
        forall|r: usize| #[trigger]
            rows.contains(r) <==> r < dates.len() && (time_of(dates[r as int]) matches Some(t) && t
                >= now - seconds),
        rows.len() == recent_rows(dates, now, seconds).len(),
{
    lemma_recent_rows_are(dates, now, seconds);
    let all = recent_rows(dates, now, seconds);
    assert(positions(rows).len() == rows.len());
    assert forall|r: usize| #[trigger] rows.contains(r) <==> r < dates.len() && (time_of(
        dates[r as int],
    ) matches Some(t) && t >= now - seconds) by {
        if rows.contains(r) {
            assert(positions(rows)[rows.index_of(r)] == r as int);
            assert(all.contains(r as int));
        }
        if all.contains(r as int) {
            assert(rows[all.index_of(r as int)] == r);
        }
    }
}

proof fn lemma_hourly_holds(window: Option<SalesWindow>, dates: Seq<String>, now: i64, hours: int)
    requires
        is_hourly_window(window, dates, now, hours),
    ensures
        holds_rows_since(window, dates, now - hours * 60 * 60),
{
    if let Some(w) = window {
        lemma_window_rows(w.rows@, dates, now, hours * 3600);
    }
}

proof fn lemma_daily_holds(window: Option<SalesWindow>, dates: Seq<String>, now: i64, days: int)
    requires
        is_daily_window(window, dates, now, days),
    ensures
        holds_rows_since(window, dates, now - days * 24 * 60 * 60),
{
    if let Some(w) = window {
        lemma_window_rows(w.rows@, dates, now, days * 86400);
    }
}

/// Each window has the rows of the time that it is named after, and no other.
pub proof fn law_windows_reach_back(
    windows: Velocity<SalesWindow>,
    hourly: Option<Seq<String>>,
    daily: Option<Seq<String>>,
    now: i64,
)
    requires
        are_windows(windows, hourly, daily, now),
    ensures
        hourly matches Some(dates) ==> {
            &&& holds_rows_since(windows.h6, dates, now - 6 * 60 * 60)
            &&& holds_rows_since(windows.h12, dates, now - 12 * 60 * 60)
            &&& holds_rows_since(windows.h24, dates, now - 24 * 60 * 60)
        },
        daily matches Some(dates) ==> {
            &&& holds_rows_since(windows.d7, dates, now - 7 * 24 * 60 * 60)
            &&& holds_rows_since(windows.w2, dates, now - 14 * 24 * 60 * 60)
            &&& holds_rows_since(windows.m1, dates, now - 30 * 24 * 60 * 60)
            &&& holds_rows_since(windows.m3, dates, now - 90 * 24 * 60 * 60)
            &&& holds_rows_since(windows.m6, dates, now - 180 * 24 * 60 * 60)
            &&& holds_rows_since(windows.y1, dates, now - 365 * 24 * 60 * 60)
            &&& holds_rows_since(windows.y2, dates, now - 730 * 24 * 60 * 60)
        },
{
    if let Some(dates) = hourly {
        lemma_hourly_holds(windows.h6, dates, now, 6);
        lemma_hourly_holds(windows.h12, dates, now, 12);
        lemma_hourly_holds(windows.h24, dates, now, 24);
    }
    if let Some(dates) = daily {
        lemma_daily_holds(windows.d7, dates, now, 7);
        lemma_daily_holds(windows.w2, dates, now, 14);
        lemma_daily_holds(windows.m1, dates, now, 30);
        lemma_daily_holds(windows.m3, dates, now, 90);
        lemma_daily_holds(windows.m6, dates, now, 180);
        lemma_daily_holds(windows.y1, dates, now, 365);
        lemma_daily_holds(windows.y2, dates, now, 730);
    }
}

/// A row that counts in a window counts in every longer one of the same history.
pub proof fn law_windows_nest(
    windows: Velocity<SalesWindow>,
    hourly: Option<Seq<String>>,
    daily: Option<Seq<String>>,
    now: i64,
)
    requires
        are_windows(windows, hourly, daily, now),
    ensures
        is_within(windows.h6, windows.h12),
        is_within(windows.h12, windows.h24),
        is_within(windows.d7, windows.w2),
        is_within(windows.w2, windows.m1),
        is_within(windows.m1, windows.m3),
        is_within(windows.m3, windows.m6),
        is_within(windows.m6, windows.y1),
        is_within(windows.y1, windows.y2),
{
    law_windows_reach_back(windows, hourly, daily, now);
}

proof fn lemma_extremes(times: Seq<int>)
    requires
        times.len() > 0,
    ensures
        times.contains(latest(times)),
        times.contains(earliest(times)),
        forall|i: int|
            0 <= i < times.len() ==> earliest(times) <= #[trigger] times[i] <= latest(times),
    decreases times.len(),
{
    let n: int = times.len() - 1;
    assert(times[n] == times.last());
    if n > 0 {
        let rest = times.drop_last();
        lemma_extremes(rest);
        assert(times[rest.index_of(latest(rest))] == latest(rest));
        assert(times[rest.index_of(earliest(rest))] == earliest(rest));
        assert forall|i: int| 0 <= i < times.len() implies earliest(times) <= #[trigger] times[i]
            <= latest(times) by {
            if i < n {
                assert(times[i] == rest[i]);
            }
        }
    }
}

proof fn lemma_daily_figures(window: Option<SalesWindow>, dates: Seq<String>, now: i64, days: int)
    requires
        is_daily_window(window, dates, now, days),
        days > 0,
    ensures
        spreads_over_days(window, dates),
{
    if let Some(w) = window {
        let rows = recent_rows(dates, now, days * 86400);
        let times = times_of(dates, rows);
        lemma_extremes(times);
        assert(positions(w.rows@).len() == w.rows@.len());
        let i: int = times.index_of(latest(times));
        let j: int = times.index_of(earliest(times));
        let a = w.rows@[i];
        let b = w.rows@[j];
        assert(positions(w.rows@)[i] == a as int && positions(w.rows@)[j] == b as int);
        assert(times[i] == time_of(dates[a as int])->0 && times[j] == time_of(dates[b as int])->0);
        assert(w.rows@.contains(a) && w.rows@.contains(b));
        assert forall|x: usize, y: usize| #[trigger]
            w.rows@.contains(x) && #[trigger] w.rows@.contains(y) implies time_of(
            dates[x as int],
        )->0 - time_of(dates[y as int])->0 < w.divisor * 86400 by {
            let k: int = w.rows@.index_of(x);
            let l: int = w.rows@.index_of(y);
            assert(positions(w.rows@)[k] == x as int && positions(w.rows@)[l] == y as int);
            assert(times[k] == time_of(dates[x as int])->0);
            assert(times[l] == time_of(dates[y as int])->0);
        }
    }
}

/// The sum of the rows of a window is turned into sales a day: by the hour through
/// the number of rows, by the day through the days that the rows span.
pub proof fn law_sales_are_spread_over_the_time(
    windows: Velocity<SalesWindow>,
    hourly: Option<Seq<String>>,
    daily: Option<Seq<String>>,
    now: i64,
)
    requires
        are_windows(windows, hourly, daily, now),
    ensures
        hourly matches Some(dates) ==> {
            &&& spreads_over_rows(windows.h6)
            &&& spreads_over_rows(windows.h12)
            &&& spreads_over_rows(windows.h24)
        },
        daily matches Some(dates) ==> {
            &&& spreads_over_days(windows.d7, dates)
            &&& spreads_over_days(windows.w2, dates)
            &&& spreads_over_days(windows.m1, dates)
            &&& spreads_over_days(windows.m3, dates)
            &&& spreads_over_days(windows.m6, dates)
            &&& spreads_over_days(windows.y1, dates)
            &&& spreads_over_days(windows.y2, dates)
        },
{
    if let Some(dates) = hourly {
        if let Some(w) = windows.h6 {
            assert(positions(w.rows@).len() == w.rows@.len());
        }
        if let Some(w) = windows.h12 {
            assert(positions(w.rows@).len() == w.rows@.len());
        }
        if let Some(w) = windows.h24 {
            assert(positions(w.rows@).len() == w.rows@.len());
        }
    }
    if let Some(dates) = daily {
        lemma_daily_figures(windows.d7, dates, now, 7);
        lemma_daily_figures(windows.w2, dates, now, 14);
        lemma_daily_figures(windows.m1, dates, now, 30);
        lemma_daily_figures(windows.m3, dates, now, 90);
        lemma_daily_figures(windows.m6, dates, now, 180);
        lemma_daily_figures(windows.y1, dates, now, 365);
        lemma_daily_figures(windows.y2, dates, now, 730);
    }
}

proof fn lemma_sample_fits(
    dates: Seq<String>,
    sample: Seq<usize>,
    now: i64,
    seconds: int,
    expected: int,
)
    requires
        has_enough_rows(dates, sample, now - seconds, expected),
    ensures
        sample.len() <= recent_rows(dates, now, seconds).len(),
        forall|i: int|
            0 <= i < sample.len() ==> recent_rows(dates, now, seconds).contains(
                (#[trigger] sample[i]) as int,
            ),
{
    let rows = recent_rows(dates, now, seconds);
    lemma_recent_rows_are(dates, now, seconds);
    let wide = positions(sample);
    assert(wide.no_duplicates());
    wide.unique_seq_to_set();
    rows.unique_seq_to_set();
    assert forall|i: int| 0 <= i < sample.len() implies rows.contains(
        (#[trigger] sample[i]) as int,
    ) by {}
    assert(wide.to_set().subset_of(rows.to_set())) by {
        assert forall|x: int| wide.to_set().contains(x) implies rows.to_set().contains(x) by {
            let i: int = wide.index_of(x);
            assert(wide[i] == sample[i] as int);
        }
    }
    vstd::set_lib::lemma_len_subset(wide.to_set(), rows.to_set());
}

proof fn lemma_hourly_known(
    window: Option<SalesWindow>,
    dates: Seq<String>,
    now: i64,
    hours: int,
    sample: Seq<usize>,
)
    requires
        is_hourly_window(window, dates, now, hours),
        hours > 0,
    ensures
        has_enough_rows(dates, sample, now - hours * 3600, hours) ==> window is Some,
        window matches Some(w) ==> 10 * w.rows@.len() >= 8 * hours,
{
    if let Some(w) = window {
        assert(positions(w.rows@).len() == w.rows@.len());
    }
    if has_enough_rows(dates, sample, now - hours * 3600, hours) {
        lemma_sample_fits(dates, sample, now, hours * 3600, hours);
    }
}

proof fn lemma_daily_known(
    window: Option<SalesWindow>,
    dates: Seq<String>,
    now: i64,
    days: int,
    sample: Seq<usize>,
)
    requires
        is_daily_window(window, dates, now, days),
        days > 0,
    ensures
        has_enough_rows(dates, sample, now - days * 86400, days) && spans_enough_days(
            dates,
            sample,
            days,
        ) ==> window is Some,
        window matches Some(w) ==> 10 * w.rows@.len() >= 8 * days && 10 * w.divisor >= 8 * days,
{
    if let Some(w) = window {
        assert(positions(w.rows@).len() == w.rows@.len());
    }
    if has_enough_rows(dates, sample, now - days * 86400, days) && spans_enough_days(
        dates,
        sample,
        days,
    ) {
        lemma_sample_fits(dates, sample, now, days * 86400, days);
        let rows = recent_rows(dates, now, days * 86400);
        let times = times_of(dates, rows);
        lemma_extremes(times);
        let (i, j) = choose|i: int, j: int|
            0 <= i < sample.len() && 0 <= j < sample.len() && 10 * ((time_of(
                dates[(#[trigger] sample[i]) as int],
            )->0 - time_of(dates[(#[trigger] sample[j]) as int])->0) / 86400 + 1) >= 8 * days;
        let a: int = rows.index_of(sample[i] as int);
        let b: int = rows.index_of(sample[j] as int);
        assert(times[a] == time_of(dates[sample[i] as int])->0);
        assert(times[b] == time_of(dates[sample[j] as int])->0);
        let far: int = latest(times) - earliest(times);
        let near: int = times[a] - times[b];
        assert(near <= far);
        assert(near / 86400 <= far / 86400);
    }
}

/// A window is known exactly where four in five of its rows are there, and by the
/// day where these also lie far enough apart.
pub proof fn law_windows_are_known_where_covered(
    windows: Velocity<SalesWindow>,
    hourly: Option<Seq<String>>,
    daily: Option<Seq<String>>,
    now: i64,
    sample: Seq<usize>,
)
    requires
        are_windows(windows, hourly, daily, now),
    ensures
        hourly matches Some(dates) ==> {
            &&& has_enough_rows(dates, sample, now - 6 * 60 * 60, 6) ==> windows.h6 is Some
            &&& windows.h6 matches Some(w) ==> 10 * w.rows@.len() >= 8 * 6
            &&& has_enough_rows(dates, sample, now - 12 * 60 * 60, 12) ==> windows.h12 is Some
            &&& windows.h12 matches Some(w) ==> 10 * w.rows@.len() >= 8 * 12
            &&& has_enough_rows(dates, sample, now - 24 * 60 * 60, 24) ==> windows.h24 is Some
            &&& windows.h24 matches Some(w) ==> 10 * w.rows@.len() >= 8 * 24
        },
        daily matches Some(dates) ==> {
            &&& has_enough_rows(dates, sample, now - 7 * 24 * 60 * 60, 7) && spans_enough_days(dates, sample, 7)
                ==> windows.d7 is Some
            &&& windows.d7 matches Some(w) ==> 10 * w.rows@.len() >= 8 * 7 && 10 * w.divisor >= 8 * 7
            &&& has_enough_rows(dates, sample, now - 14 * 24 * 60 * 60, 14) && spans_enough_days(dates, sample, 14)
                ==> windows.w2 is Some
            &&& windows.w2 matches Some(w) ==> 10 * w.rows@.len() >= 8 * 14 && 10 * w.divisor >= 8 * 14
            &&& has_enough_rows(dates, sample, now - 30 * 24 * 60 * 60, 30) && spans_enough_days(dates, sample, 30)
                ==> windows.m1 is Some
            &&& windows.m1 matches Some(w) ==> 10 * w.rows@.len() >= 8 * 30 && 10 * w.divisor >= 8 * 30
            &&& has_enough_rows(dates, sample, now - 90 * 24 * 60 * 60, 90) && spans_enough_days(dates, sample, 90)
                ==> windows.m3 is Some
            &&& windows.m3 matches Some(w) ==> 10 * w.rows@.len() >= 8 * 90 && 10 * w.divisor >= 8 * 90
            &&& has_enough_rows(dates, sample, now - 180 * 24 * 60 * 60, 180) && spans_enough_days(dates, sample, 180)
                ==> windows.m6 is Some
            &&& windows.m6 matches Some(w) ==> 10 * w.rows@.len() >= 8 * 180 && 10 * w.divisor >= 8 * 180
            &&& has_enough_rows(dates, sample, now - 365 * 24 * 60 * 60, 365) && spans_enough_days(dates, sample, 365)
                ==> windows.y1 is Some
            &&& windows.y1 matches Some(w) ==> 10 * w.rows@.len() >= 8 * 365 && 10 * w.divisor >= 8 * 365
            &&& has_enough_rows(dates, sample, now - 730 * 24 * 60 * 60, 730) && spans_enough_days(dates, sample, 730)
                ==> windows.y2 is Some
            &&& windows.y2 matches Some(w) ==> 10 * w.rows@.len() >= 8 * 730 && 10 * w.divisor >= 8 * 730
        },
        hourly is None ==> windows.h6 is None && windows.h12 is None && windows.h24 is None,
        daily is None ==> windows.d7 is None && windows.w2 is None && windows.m1 is None
            && windows.m3 is None && windows.m6 is None && windows.y1 is None && windows.y2
            is None,
{
    if let Some(dates) = hourly {
        lemma_hourly_known(windows.h6, dates, now, 6, sample);
        lemma_hourly_known(windows.h12, dates, now, 12, sample);
        lemma_hourly_known(windows.h24, dates, now, 24, sample);
    }
    if let Some(dates) = daily {
        lemma_daily_known(windows.d7, dates, now, 7, sample);
        lemma_daily_known(windows.w2, dates, now, 14, sample);
        lemma_daily_known(windows.m1, dates, now, 30, sample);
        lemma_daily_known(windows.m3, dates, now, 90, sample);
        lemma_daily_known(windows.m6, dates, now, 180, sample);
        lemma_daily_known(windows.y1, dates, now, 365, sample);
        lemma_daily_known(windows.y2, dates, now, 730, sample);
    }
}

/// What was fetched by the hour is taken over into the windows of hours alone, and
/// what was fetched by the day into those of days and longer.
pub proof fn law_groups_fill_their_own_windows<T>(known: Velocity<T>, fetched: Velocity<T>)
    ensures
        ({
            let h = merged(known, fetched, true, false);
            &&& h.h6 == fetched.h6 && h.h12 == fetched.h12 && h.h24 == fetched.h24
            &&& h.d7 == known.d7 && h.w2 == known.w2 && h.m1 == known.m1 && h.m3 == known.m3
            &&& h.m6 == known.m6 && h.y1 == known.y1 && h.y2 == known.y2
        }),
        ({
            let d = merged(known, fetched, false, true);
            &&& d.h6 == known.h6 && d.h12 == known.h12 && d.h24 == known.h24
            &&& d.d7 == fetched.d7 && d.w2 == fetched.w2 && d.m1 == fetched.m1 && d.m3
                == fetched.m3
            &&& d.m6 == fetched.m6 && d.y1 == fetched.y1 && d.y2 == fetched.y2
        }),
{
}

/// What was fetched is used for a day, to the second.
pub proof fn law_velocity_lasts_a_day<T>(entry: VelocityEntry<T>, age: int)
    requires
        i64::MIN <= entry.fetched_at + age <= i64::MAX,
    ensures
        is_fresh(entry, (entry.fetched_at + age) as i64) <==> age < 24 * 60 * 60,
{
}

/// Nothing is downloaded that is not wanted or that a fresh entry has. Everything
/// else that is wanted is.
pub proof fn law_only_what_is_missing_is_fetched<T>(
    entry: Option<VelocityEntry<T>>,
    now: i64,
    wanted: Groups,
)
    ensures
        ({
            let missing = missing_groups(entry, now, wanted);
            let usable = entry matches Some(e) && now - e.fetched_at < 24 * 60 * 60;
            &&& !wanted.hourly ==> !missing.hourly
            &&& !wanted.daily ==> !missing.daily
            &&& usable && (entry->0).hourly ==> !missing.hourly
            &&& usable && (entry->0).daily ==> !missing.daily
            &&& wanted.hourly && !(usable && (entry->0).hourly) ==> missing.hourly
            &&& wanted.daily && !(usable && (entry->0).daily) ==> missing.daily
        }),
{
}

/// Adding a group does not make an entry younger, and keeps what it had of the
/// other. An entry that is too old leaves nothing behind. A download that failed
/// changes nothing.
pub proof fn law_downloads_are_added<T>(
    entry: Option<VelocityEntry<T>>,
    now: i64,
    v: Velocity<T>,
    error: String,
)
    ensures
        ({
            let usable = entry matches Some(e) && now - e.fetched_at < 24 * 60 * 60;
            let h = entry_after(entry, now, Groups { hourly: true, daily: false }, Ok(v));
            let d = entry_after(entry, now, Groups { hourly: false, daily: true }, Ok(v));
            &&& h matches Ok(x) && d matches Ok(y) && {
                &&& usable ==> x.fetched_at == (entry->0).fetched_at && y.fetched_at
                    == (entry->0).fetched_at
                &&& !usable ==> x.fetched_at == now && y.fetched_at == now
                &&& x.hourly && y.daily
                &&& usable ==> x.daily == (entry->0).daily && y.hourly == (entry->0).hourly
                &&& !usable ==> !x.daily && !y.hourly
                &&& x.velocity.h6 == v.h6 && x.velocity.h12 == v.h12 && x.velocity.h24 == v.h24
                &&& y.velocity.d7 == v.d7 && y.velocity.w2 == v.w2 && y.velocity.m1 == v.m1
                &&& y.velocity.m3 == v.m3 && y.velocity.m6 == v.m6 && y.velocity.y1 == v.y1
                &&& y.velocity.y2 == v.y2
                &&& usable ==> x.velocity.d7 == (entry->0).velocity.d7 && x.velocity.m1
                    == (entry->0).velocity.m1 && y.velocity.h6 == (entry->0).velocity.h6
                    && y.velocity.h24 == (entry->0).velocity.h24
                &&& !usable ==> x.velocity.d7 is None && x.velocity.y2 is None && y.velocity.h6
                    is None && y.velocity.h24 is None
            }
        }),
        entry is Some ==> entry_after(
            entry,
            now,
            Groups { hourly: true, daily: true },
            Err(error),
        ) == Ok::<VelocityEntry<T>, String>(entry->0),
        entry is None ==> entry_after(
            entry,
            now,
            Groups { hourly: true, daily: true },
            Err(error),
        ) == Err::<VelocityEntry<T>, String>(error),
{
}

/// The history by the day that is asked for reaches back beyond the longest window,
/// by less than a week.
pub proof fn law_history_covers_the_longest_window()
    ensures
        2 * 365 < DAILY_HISTORY_DAYS < 2 * 365 + 7,
{
}

} // verus!
