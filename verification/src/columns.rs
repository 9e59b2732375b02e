//! Columns of the item table.

use crate::text::same_text;
use crate::order::lemma_filter_keeps_order;
use crate::velocity::{
    are_windows, holds_rows_since, law_windows_reach_back, SalesWindow, Velocity,
};
use vstd::prelude::*;
use vstd::string::*;

verus! {

/// Columns that the table can be sorted by.
#[derive(Clone, Copy, Debug, PartialEq, Eq, Structural)]
pub enum SortColumn {
    Name,
    Disciplines,
    ItemId,
    TotalProfit,
    ProfitPerItem,
    ProfitPerStep,
    Vel6h,
    Vel12h,
    Vel24h,
    Vel7d,
    Vel2w,
    Vel1m,
    Vel3m,
    Vel6m,
    Vel1y,
    Vel2y,
}

/// Heading of a column.
pub open spec fn heading(column: SortColumn) -> Seq<char> {
    match column {
        SortColumn::Name => "Name"@,
        SortColumn::Disciplines => "Disciplines"@,
        SortColumn::ItemId => "Item ID"@,
        SortColumn::TotalProfit => "Total profit"@,
        SortColumn::ProfitPerItem => "Profit / item"@,
        SortColumn::ProfitPerStep => "Profit / step"@,
        SortColumn::Vel6h => "Vel 6h"@,
        SortColumn::Vel12h => "Vel 12h"@,
        SortColumn::Vel24h => "Vel 24h"@,
        SortColumn::Vel7d => "Vel 7d"@,
        SortColumn::Vel2w => "Vel 2w"@,
        SortColumn::Vel1m => "Vel 1m"@,
        SortColumn::Vel3m => "Vel 3m"@,
        SortColumn::Vel6m => "Vel 6m"@,
        SortColumn::Vel1y => "Vel 1y"@,
        SortColumn::Vel2y => "Vel 2y"@,
    }
}

/// Different columns have different headings.
pub proof fn law_headings_differ(a: SortColumn, b: SortColumn)
    requires
        heading(a) == heading(b),
    ensures
        a == b,
{
    reveal_strlit("Name");
    reveal_strlit("Disciplines");
    reveal_strlit("Item ID");
    reveal_strlit("Total profit");
    reveal_strlit("Profit / item");
    reveal_strlit("Profit / step");
    reveal_strlit("Vel 6h");
    reveal_strlit("Vel 12h");
    reveal_strlit("Vel 24h");
    reveal_strlit("Vel 7d");
    reveal_strlit("Vel 2w");
    reveal_strlit("Vel 1m");
    reveal_strlit("Vel 3m");
    reveal_strlit("Vel 6m");
    reveal_strlit("Vel 1y");
    reveal_strlit("Vel 2y");
    let x = heading(a);
    let y = heading(b);
    assert(x.len() == y.len() && x[4] == y[4] && x[5] == y[5] && x[9] == y[9]);
}

/// The column shows a velocity.
pub open spec fn shows_velocity(column: SortColumn) -> bool {
    window_id(column) is Some
}

/// Short name of the window that a column shows the velocity of.
pub open spec fn window_id(column: SortColumn) -> Option<Seq<char>> {
    match column {
        SortColumn::Vel6h => Some("6h"@),
        SortColumn::Vel12h => Some("12h"@),
        SortColumn::Vel24h => Some("24h"@),
        SortColumn::Vel7d => Some("7d"@),
        SortColumn::Vel2w => Some("2w"@),
        SortColumn::Vel1m => Some("1m"@),
        SortColumn::Vel3m => Some("3m"@),
        SortColumn::Vel6m => Some("6m"@),
        SortColumn::Vel1y => Some("1y"@),
        SortColumn::Vel2y => Some("2y"@),
        _ => None,
    }
}

/// All columns, in the order in which they are shown.
pub open spec fn all_columns() -> Seq<SortColumn> {
    seq![
        SortColumn::Name,
        SortColumn::Disciplines,
        SortColumn::ItemId,
        SortColumn::TotalProfit,
        SortColumn::ProfitPerItem,
        SortColumn::ProfitPerStep,
        SortColumn::Vel6h,
        SortColumn::Vel12h,
        SortColumn::Vel24h,
        SortColumn::Vel7d,
        SortColumn::Vel2w,
        SortColumn::Vel1m,
        SortColumn::Vel3m,
        SortColumn::Vel6m,
        SortColumn::Vel1y,
        SortColumn::Vel2y,
    ]
}

/// The columns that show a velocity, in the order in which they are shown.
pub open spec fn velocity_columns() -> Seq<SortColumn> {
    seq![
        SortColumn::Vel6h,
        SortColumn::Vel12h,
        SortColumn::Vel24h,
        SortColumn::Vel7d,
        SortColumn::Vel2w,
        SortColumn::Vel1m,
        SortColumn::Vel3m,
        SortColumn::Vel6m,
        SortColumn::Vel1y,
        SortColumn::Vel2y,
    ]
}

/// The column shows a window of the history by the hour.
pub open spec fn is_hourly(column: SortColumn) -> bool {
    column == SortColumn::Vel6h || column == SortColumn::Vel12h || column == SortColumn::Vel24h
}

impl SortColumn {
    /// Whether the first click on the heading sorts downwards.
    pub fn default_desc(self) -> (b: bool)
        ensures
            b == !(self == SortColumn::Name || self == SortColumn::Disciplines),
    {
        !(self == SortColumn::Name || self == SortColumn::Disciplines)
    }

    /// Whether the column shows a velocity.
    pub fn is_velocity(self) -> (b: bool)
        ensures
            b == shows_velocity(self),
    {
        self.window().is_some()
    }

    /// Heading of the column.
    pub fn header(self) -> (text: &'static str)
        ensures
            text@ == heading(self),
    {
        match self {
            SortColumn::Name => "Name",
            SortColumn::Disciplines => "Disciplines",
            SortColumn::ItemId => "Item ID",
            SortColumn::TotalProfit => "Total profit",
            SortColumn::ProfitPerItem => "Profit / item",
            SortColumn::ProfitPerStep => "Profit / step",
            SortColumn::Vel6h => "Vel 6h",
            SortColumn::Vel12h => "Vel 12h",
            SortColumn::Vel24h => "Vel 24h",
            SortColumn::Vel7d => "Vel 7d",
            SortColumn::Vel2w => "Vel 2w",
            SortColumn::Vel1m => "Vel 1m",
            SortColumn::Vel3m => "Vel 3m",
            SortColumn::Vel6m => "Vel 6m",
            SortColumn::Vel1y => "Vel 1y",
            SortColumn::Vel2y => "Vel 2y",
        }
    }

    /// Short name of the window that the column shows the velocity of.
    pub fn window(self) -> (id: Option<&'static str>)
        ensures
            match id {
                Some(text) => window_id(self) == Some(text@),
                None => window_id(self) is None,
            },
    {
        match self {
            SortColumn::Vel6h => Some("6h"),
            SortColumn::Vel12h => Some("12h"),
            SortColumn::Vel24h => Some("24h"),
            SortColumn::Vel7d => Some("7d"),
            SortColumn::Vel2w => Some("2w"),
            SortColumn::Vel1m => Some("1m"),
            SortColumn::Vel3m => Some("3m"),
            SortColumn::Vel6m => Some("6m"),
            SortColumn::Vel1y => Some("1y"),
            SortColumn::Vel2y => Some("2y"),
            _ => None,
        }
    }
}

/// All columns, in the order in which they are shown.
pub fn all_sort_columns() -> (columns: Vec<SortColumn>)
    ensures
        columns@ == all_columns(),
{
    let columns = vec![
        SortColumn::Name,
        SortColumn::Disciplines,
        SortColumn::ItemId,
        SortColumn::TotalProfit,
        SortColumn::ProfitPerItem,
        SortColumn::ProfitPerStep,
        SortColumn::Vel6h,
        SortColumn::Vel12h,
        SortColumn::Vel24h,
        SortColumn::Vel7d,
        SortColumn::Vel2w,
        SortColumn::Vel1m,
        SortColumn::Vel3m,
        SortColumn::Vel6m,
        SortColumn::Vel1y,
        SortColumn::Vel2y,
    ];
    assert(columns@ =~= all_columns());
    columns
}

/// The columns that show a velocity, in the order in which they are shown.
pub fn all_velocity_columns() -> (columns: Vec<SortColumn>)
    ensures
        columns@ == velocity_columns(),
{
    let columns = vec![
        SortColumn::Vel6h,
        SortColumn::Vel12h,
        SortColumn::Vel24h,
        SortColumn::Vel7d,
        SortColumn::Vel2w,
        SortColumn::Vel1m,
        SortColumn::Vel3m,
        SortColumn::Vel6m,
        SortColumn::Vel1y,
        SortColumn::Vel2y,
    ];
    assert(columns@ =~= velocity_columns());
    columns
}

/// Velocity in the window that a column shows.
pub open spec fn value_in<T>(v: Velocity<T>, column: SortColumn) -> Option<T> {
    match column {
        SortColumn::Vel6h => v.h6,
        SortColumn::Vel12h => v.h12,
        SortColumn::Vel24h => v.h24,
        SortColumn::Vel7d => v.d7,
        SortColumn::Vel2w => v.w2,
        SortColumn::Vel1m => v.m1,
        SortColumn::Vel3m => v.m3,
        SortColumn::Vel6m => v.m6,
        SortColumn::Vel1y => v.y1,
        SortColumn::Vel2y => v.y2,
        _ => None,
    }
}

/// Velocity in the window that a column shows.
pub fn velocity_in<T>(v: &Velocity<T>, column: SortColumn) -> (value: &Option<T>)
    requires
        shows_velocity(column),
    ensures
        *value == value_in(*v, column),
{
    match column {
        SortColumn::Vel6h => &v.h6,
        SortColumn::Vel12h => &v.h12,
        SortColumn::Vel24h => &v.h24,
        SortColumn::Vel7d => &v.d7,
        SortColumn::Vel2w => &v.w2,
        SortColumn::Vel1m => &v.m1,
        SortColumn::Vel3m => &v.m3,
        SortColumn::Vel6m => &v.m6,
        SortColumn::Vel1y => &v.y1,
        _ => &v.y2,
    }
}

/// Whether the column is in the list.
pub fn contains_column(columns: &Vec<SortColumn>, column: SortColumn) -> (b: bool)
    ensures
        b == columns@.contains(column),
{
    let mut i: usize = 0;
    while i < columns.len()
        invariant
            i <= columns.len(),
            forall|j: int| 0 <= j < i ==> columns@[j] != column,
        decreases columns.len() - i,
    {
        if columns[i] == column {
            assert(columns@[i as int] == column);
            return true;
        }
        i += 1;
    }
    false
}

/// The columns that are shown: all but those of windows that are switched off.
pub open spec fn shown_columns(enabled: Seq<SortColumn>) -> Seq<SortColumn> {
    all_columns().filter(|c: SortColumn| !shows_velocity(c) || enabled.contains(c))
}

/// The windows that are switched on, in the order in which they are shown.
pub open spec fn shown_windows(enabled: Seq<SortColumn>) -> Seq<SortColumn> {
    velocity_columns().filter(|c: SortColumn| enabled.contains(c))
}

/// The columns that are shown.
pub fn visible_columns(enabled: &Vec<SortColumn>) -> (columns: Vec<SortColumn>)
    ensures
        columns@ == shown_columns(enabled@),
{
    let all = all_sort_columns();
    let ghost keep = |c: SortColumn| !shows_velocity(c) || enabled@.contains(c);
    let mut columns: Vec<SortColumn> = Vec::new();
    let mut i: usize = 0;
    reveal(Seq::filter);
    assert(all@.take(0).filter(keep) =~= Seq::empty());
    while i < all.len()
        invariant
            i <= all.len(),
            keep == (|c: SortColumn| !shows_velocity(c) || enabled@.contains(c)),
            columns@ == all@.take(i as int).filter(keep),
        decreases all.len() - i,
    {
        proof {
            reveal(Seq::filter);
            assert(all@.take(i + 1).drop_last() =~= all@.take(i as int));
        }
        if !all[i].is_velocity() || contains_column(enabled, all[i]) {
            columns.push(all[i]);
        }
        i += 1;
    }
    assert(all@.take(i as int) =~= all@);
    columns
}

/// The windows that are switched on, in the order in which they are shown.
pub fn enabled_windows(enabled: &Vec<SortColumn>) -> (columns: Vec<SortColumn>)
    ensures
        columns@ == shown_windows(enabled@),
{
    let all = all_velocity_columns();
    let ghost keep = |c: SortColumn| enabled@.contains(c);
    let mut columns: Vec<SortColumn> = Vec::new();
    let mut i: usize = 0;
    reveal(Seq::filter);
    assert(all@.take(0).filter(keep) =~= Seq::empty());
    while i < all.len()
        invariant
            i <= all.len(),
            keep == (|c: SortColumn| enabled@.contains(c)),
            columns@ == all@.take(i as int).filter(keep),
        decreases all.len() - i,
    {
        proof {
            reveal(Seq::filter);
            assert(all@.take(i + 1).drop_last() =~= all@.take(i as int));
        }
        if contains_column(enabled, all[i]) {
            columns.push(all[i]);
        }
        i += 1;
    }
    assert(all@.take(i as int) =~= all@);
    columns
}

/// `text` is the short name of the window of the column.
pub open spec fn names_window(column: SortColumn, text: Seq<char>) -> bool {
    window_id(column) == Some(text)
}

/// The column of the window with the short name.
pub fn column_of_window(text: &str) -> (column: Option<SortColumn>)
    ensures
        match column {
            Some(c) => names_window(c, text@),
            None => forall|c: SortColumn| !#[trigger] names_window(c, text@),
        },
{
    let all = all_velocity_columns();
    let mut i: usize = 0;
    while i < all.len()
        invariant
            all@ == velocity_columns(),
            i <= all.len(),
            forall|j: int| 0 <= j < i ==> !#[trigger] names_window(all@[j], text@),
        decreases all.len() - i,
    {
        if let Some(id) = all[i].window() {
            if same_text(id, text) {
                return Some(all[i]);
            }
        }
        i += 1;
    }
    proof {
        assert forall|c: SortColumn| !#[trigger] names_window(c, text@) by {
            if names_window(c, text@) {
                lemma_velocity_column_listed(c);
                let k: int = choose|k: int|
                    0 <= k < velocity_columns().len() && velocity_columns()[k] == c;
                assert(!names_window(all@[k], text@));
            }
        }
    }
    None
}

proof fn lemma_velocity_column_listed(c: SortColumn)
    requires
        shows_velocity(c),
    ensures
        velocity_columns().contains(c),
{
    let all = velocity_columns();
    assert(all[0] == SortColumn::Vel6h);
    assert(all[1] == SortColumn::Vel12h);
    assert(all[2] == SortColumn::Vel24h);
    assert(all[3] == SortColumn::Vel7d);
    assert(all[4] == SortColumn::Vel2w);
    assert(all[5] == SortColumn::Vel1m);
    assert(all[6] == SortColumn::Vel3m);
    assert(all[7] == SortColumn::Vel6m);
    assert(all[8] == SortColumn::Vel1y);
    assert(all[9] == SortColumn::Vel2y);
}

/// First and last character of the short name of a window.
spec fn window_mark(column: SortColumn) -> (char, char) {
    match column {
        SortColumn::Vel6h => ('6', 'h'),
        SortColumn::Vel12h => ('1', 'h'),
        SortColumn::Vel24h => ('2', 'h'),
        SortColumn::Vel7d => ('7', 'd'),
        SortColumn::Vel2w => ('2', 'w'),
        SortColumn::Vel1m => ('1', 'm'),
        SortColumn::Vel3m => ('3', 'm'),
        SortColumn::Vel6m => ('6', 'm'),
        SortColumn::Vel1y => ('1', 'y'),
        SortColumn::Vel2y => ('2', 'y'),
        _ => (' ', ' '),
    }
}

proof fn lemma_window_mark(column: SortColumn)
    requires
        shows_velocity(column),
    ensures
        ({
            let id = window_id(column)->0;
            window_mark(column) == (id[0], id[id.len() - 1])
        }),
{
    reveal_strlit("6h");
    reveal_strlit("12h");
    reveal_strlit("24h");
    reveal_strlit("7d");
    reveal_strlit("2w");
    reveal_strlit("1m");
    reveal_strlit("3m");
    reveal_strlit("6m");
    reveal_strlit("1y");
    reveal_strlit("2y");
    match column {
        SortColumn::Vel6h => assert("6h"@[0] == '6' && "6h"@[1] == 'h'),
        SortColumn::Vel12h => assert("12h"@[0] == '1' && "12h"@[2] == 'h'),
        SortColumn::Vel24h => assert("24h"@[0] == '2' && "24h"@[2] == 'h'),
        SortColumn::Vel7d => assert("7d"@[0] == '7' && "7d"@[1] == 'd'),
        SortColumn::Vel2w => assert("2w"@[0] == '2' && "2w"@[1] == 'w'),
        SortColumn::Vel1m => assert("1m"@[0] == '1' && "1m"@[1] == 'm'),
        SortColumn::Vel3m => assert("3m"@[0] == '3' && "3m"@[1] == 'm'),
        SortColumn::Vel6m => assert("6m"@[0] == '6' && "6m"@[1] == 'm'),
        SortColumn::Vel1y => assert("1y"@[0] == '1' && "1y"@[1] == 'y'),
        SortColumn::Vel2y => assert("2y"@[0] == '2' && "2y"@[1] == 'y'),
        _ => {},
    }
}

/// No two windows share a short name.
pub proof fn law_window_names_differ(a: SortColumn, b: SortColumn, text: Seq<char>)
    requires
        names_window(a, text),
        names_window(b, text),
    ensures
        a == b,
{
    lemma_window_mark(a);
    lemma_window_mark(b);
}

/// Sorting after a click on a heading: the other way round on the column that is
/// sorted by already, and the way that suits the column on any other.
pub open spec fn sorting_after_click(
    column: SortColumn,
    desc: bool,
    clicked: SortColumn,
) -> (SortColumn, bool) {
    if clicked == column {
        (column, !desc)
    } else {
        (clicked, !(clicked == SortColumn::Name || clicked == SortColumn::Disciplines))
    }
}

/// Sorting after a click on a heading.
pub fn click_heading(column: SortColumn, desc: bool, clicked: SortColumn) -> (sorting: (
    SortColumn,
    bool,
))
    ensures
        sorting == sorting_after_click(column, desc, clicked),
{
    if clicked == column {
        (column, !desc)
    } else {
        (clicked, clicked.default_desc())
    }
}

/// Sorting that can be shown: by profit, downwards, where the column is of a
/// window that is switched off.
pub open spec fn usable_sorting(
    column: SortColumn,
    desc: bool,
    enabled: Seq<SortColumn>,
) -> (SortColumn, bool) {
    if shows_velocity(column) && !enabled.contains(column) {
        (SortColumn::TotalProfit, true)
    } else {
        (column, desc)
    }
}

/// Sorting that can be shown.
pub fn fall_back_sorting(column: SortColumn, desc: bool, enabled: &Vec<SortColumn>) -> (sorting: (
    SortColumn,
    bool,
))
    ensures
        sorting == usable_sorting(column, desc, enabled@),
{
    if column.is_velocity() && !contains_column(enabled, column) {
        (SortColumn::TotalProfit, true)
    } else {
        (column, desc)
    }
}

/// Heading with an arrow on the column that is sorted by.
pub open spec fn heading_with_arrow(
    column: SortColumn,
    sorted_by: SortColumn,
    desc: bool,
) -> Seq<char> {
    heading(column) + (if column == sorted_by {
        if desc {
            " \u{25bc}"@
        } else {
            " \u{25b2}"@
        }
    } else {
        ""@
    })
}

/// Heading with an arrow on the column that is sorted by.
pub fn header_text(column: SortColumn, sorted_by: SortColumn, desc: bool) -> (text: String)
    ensures
        text@ == heading_with_arrow(column, sorted_by, desc),
{
    let arrow = if column == sorted_by {
        if desc {
            " \u{25bc}"
        } else {
            " \u{25b2}"
        }
    } else {
        ""
    };
    String::from_str(column.header()).concat(arrow)
}

/// Switches a window on or off.
pub fn set_window(enabled: &mut Vec<SortColumn>, column: SortColumn, on: bool)
    ensures
        on ==> final(enabled)@ == old(enabled)@.push(column),
        !on ==> final(enabled)@ == old(enabled)@.filter(|c: SortColumn| c != column),
        final(enabled)@.contains(column) == on,
        forall|c: SortColumn|
            c != column ==> (#[trigger] final(enabled)@.contains(c) <==> old(enabled)@.contains(c)),
{
    if on {
        let ghost before = enabled@;
        enabled.push(column);
        proof {
            assert(enabled@[before.len() as int] == column);
            assert forall|c: SortColumn| c != column implies (#[trigger] enabled@.contains(c)
                <==> before.contains(c)) by {
                if before.contains(c) {
                    assert(enabled@[before.index_of(c)] == c);
                }
                if enabled@.contains(c) {
                    assert(before[enabled@.index_of(c)] == c);
                }
            }
        }
        return;
    }
    let ghost all = enabled@;
    let ghost keep = |c: SortColumn| c != column;
    let mut kept: Vec<SortColumn> = Vec::new();
    let mut i: usize = 0;
    reveal(Seq::filter);
    assert(all.take(0).filter(keep) =~= Seq::empty());
    while i < enabled.len()
        invariant
            all == enabled@,
            i <= enabled.len(),
            keep == (|c: SortColumn| c != column),
            kept@ == all.take(i as int).filter(keep),
        decreases enabled.len() - i,
    {
        proof {
            reveal(Seq::filter);
            assert(all.take(i + 1).drop_last() =~= all.take(i as int));
        }
        if enabled[i] != column {
            kept.push(enabled[i]);
        }
        i += 1;
    }
    assert(all.take(i as int) =~= all);
    proof {
        let other = |c: SortColumn| c != column;
        assert forall|c: SortColumn| (#[trigger] kept@.contains(c) <==> all.contains(c) && c
            != column) by {
            lemma_kept_columns(all, other, c);
        }
    }
    *enabled = kept;
}

/// Seconds that the unit of a window stands for. A month has 30 days and a year 365.
pub open spec fn unit_seconds(unit: char) -> int {
    if unit == 'h' {
        3_600int
    } else if unit == 'd' {
        86_400int
    } else if unit == 'w' {
        604_800int
    } else if unit == 'm' {
        2_592_000int
    } else {
        31_536_000int
    }
}

/// Seconds that the short name of a window stands for: one or two digits and a unit.
pub open spec fn named_seconds(name: Seq<char>) -> int {
    let n = name.len();
    let ones = (name[n - 2] as u32) as int - 48;
    let tens = if n >= 3 {
        (name[n - 3] as u32) as int - 48
    } else {
        0
    };
    (10 * tens + ones) * unit_seconds(name[n - 1])
}

/// A column shows sales within the time that its short name stands for, and its
/// heading ends in that name. Windows of hours come from the history by the hour, and
/// all others from the one by the day.
#[verifier::spinoff_prover]
pub proof fn law_columns_show_the_time_they_name(
    windows: Velocity<SalesWindow>,
    hourly: Seq<String>,
    daily: Seq<String>,
    now: i64,
    column: SortColumn,
)
    requires
        are_windows(windows, Some(hourly), Some(daily), now),
        shows_velocity(column),
    ensures
        ({
            let name = window_id(column)->0;
            let by_the_hour = name[name.len() - 1] == 'h';
            &&& heading(column) == "Vel "@ + name
            &&& is_hourly(column) == by_the_hour
            &&& holds_rows_since(
                value_in(windows, column),
                if by_the_hour {
                    hourly
                } else {
                    daily
                },
                now - named_seconds(name),
            )
        }),
{
    law_windows_reach_back(windows, Some(hourly), Some(daily), now);
    reveal_strlit("Vel ");
    lemma_named_seconds(column);
    match column {
        SortColumn::Vel6h => {
            reveal_strlit("6h");
            reveal_strlit("Vel 6h");
            assert(heading(column) =~= "Vel "@ + "6h"@);
            assert("6h"@[1] == 'h');
        },
        SortColumn::Vel12h => {
            reveal_strlit("12h");
            reveal_strlit("Vel 12h");
            assert(heading(column) =~= "Vel "@ + "12h"@);
            assert("12h"@[2] == 'h');
        },
        SortColumn::Vel24h => {
            reveal_strlit("24h");
            reveal_strlit("Vel 24h");
            assert(heading(column) =~= "Vel "@ + "24h"@);
            assert("24h"@[2] == 'h');
        },
        SortColumn::Vel7d => {
            reveal_strlit("7d");
            reveal_strlit("Vel 7d");
            assert(heading(column) =~= "Vel "@ + "7d"@);
            assert("7d"@[1] == 'd');
        },
        SortColumn::Vel2w => {
            reveal_strlit("2w");
            reveal_strlit("Vel 2w");
            assert(heading(column) =~= "Vel "@ + "2w"@);
            assert("2w"@[1] == 'w');
        },
        SortColumn::Vel1m => {
            reveal_strlit("1m");
            reveal_strlit("Vel 1m");
            assert(heading(column) =~= "Vel "@ + "1m"@);
            assert("1m"@[1] == 'm');
        },
        SortColumn::Vel3m => {
            reveal_strlit("3m");
            reveal_strlit("Vel 3m");
            assert(heading(column) =~= "Vel "@ + "3m"@);
            assert("3m"@[1] == 'm');
        },
        SortColumn::Vel6m => {
            reveal_strlit("6m");
            reveal_strlit("Vel 6m");
            assert(heading(column) =~= "Vel "@ + "6m"@);
            assert("6m"@[1] == 'm');
        },
        SortColumn::Vel1y => {
            reveal_strlit("1y");
            reveal_strlit("Vel 1y");
            assert(heading(column) =~= "Vel "@ + "1y"@);
            assert("1y"@[1] == 'y');
        },
        SortColumn::Vel2y => {
            reveal_strlit("2y");
            reveal_strlit("Vel 2y");
            assert(heading(column) =~= "Vel "@ + "2y"@);
            assert("2y"@[1] == 'y');
        },
        _ => {},
    }
}

/// A column is shown exactly if it shows no velocity, or its window is switched on. The
/// windows that are listed are those among them.
pub proof fn law_windows_are_shown_where_on(enabled: Seq<SortColumn>, column: SortColumn)
    ensures
        shown_columns(enabled).contains(column) <==> !shows_velocity(column) || enabled.contains(
            column,
        ),
        shown_windows(enabled).contains(column) <==> shows_velocity(column) && enabled.contains(
            column,
        ),
        shown_columns(enabled).no_duplicates(),
        shown_windows(enabled).no_duplicates(),
{
    let keep = |c: SortColumn| !shows_velocity(c) || enabled.contains(c);
    let on = |c: SortColumn| enabled.contains(c);
    let all = all_columns();
    lemma_column_listed(column);
    if shows_velocity(column) {
        lemma_velocity_column_listed(column);
    }
    if velocity_columns().contains(column) {
        let k: int = velocity_columns().index_of(column);
        assert(velocity_columns()[k] == column);
        assert(shows_velocity(column));
    }
    lemma_kept_columns(all, keep, column);
    lemma_kept_columns(velocity_columns(), on, column);
    lemma_columns_differ();
    let differ = |a: SortColumn, b: SortColumn| a != b;
    lemma_filter_keeps_order(all, keep, differ);
    lemma_filter_keeps_order(velocity_columns(), on, differ);
}

proof fn lemma_kept_columns(
    columns: Seq<SortColumn>,
    keep: spec_fn(SortColumn) -> bool,
    column: SortColumn,
)
    ensures
        columns.filter(keep).contains(column) <==> columns.contains(column) && keep(column),
{
    if columns.contains(column) && keep(column) {
        columns.lemma_filter_contains(keep, columns.index_of(column));
    }
    if columns.filter(keep).contains(column) {
        let i: int = columns.filter(keep).index_of(column);
        columns.lemma_filter_pred(keep, i);
        columns.lemma_filter_contains_rev(keep, column);
    }
}

proof fn lemma_columns_differ()
    ensures
        all_columns().no_duplicates(),
        velocity_columns().no_duplicates(),
{
}

proof fn lemma_column_listed(c: SortColumn)
    ensures
        all_columns().contains(c),
{
    let all = all_columns();
    assert(all[0] == SortColumn::Name);
    assert(all[1] == SortColumn::Disciplines);
    assert(all[2] == SortColumn::ItemId);
    assert(all[3] == SortColumn::TotalProfit);
    assert(all[4] == SortColumn::ProfitPerItem);
    assert(all[5] == SortColumn::ProfitPerStep);
    assert(all[6] == SortColumn::Vel6h);
    assert(all[7] == SortColumn::Vel12h);
    assert(all[8] == SortColumn::Vel24h);
    assert(all[9] == SortColumn::Vel7d);
    assert(all[10] == SortColumn::Vel2w);
    assert(all[11] == SortColumn::Vel1m);
    assert(all[12] == SortColumn::Vel3m);
    assert(all[13] == SortColumn::Vel6m);
    assert(all[14] == SortColumn::Vel1y);
    assert(all[15] == SortColumn::Vel2y);
}

/// A click sorts by the column that was clicked. A second click turns the order round,
/// and a third restores it. The first click sorts numbers downwards and texts upwards.
pub proof fn law_clicks_turn_the_order_round(
    column: SortColumn,
    desc: bool,
    clicked: SortColumn,
)
    ensures
        ({
            let once = sorting_after_click(column, desc, clicked);
            let twice = sorting_after_click(once.0, once.1, clicked);
            let thrice = sorting_after_click(twice.0, twice.1, clicked);
            &&& once.0 == clicked
            &&& twice == (clicked, !once.1)
            &&& thrice == once
            &&& clicked == column ==> once.1 == !desc
            &&& clicked != column ==> (once.1 <==> clicked != SortColumn::Name && clicked
                != SortColumn::Disciplines)
        }),
{
}

/// The table is never sorted by a column that is not shown: one that is shown stays,
/// and for any other the highest profit comes first.
pub proof fn law_sorting_can_be_seen(column: SortColumn, desc: bool, enabled: Seq<SortColumn>)
    ensures
        ({
            let now = usable_sorting(column, desc, enabled);
            &&& shown_columns(enabled).contains(now.0)
            &&& shown_columns(enabled).contains(column) ==> now == (column, desc)
            &&& !shown_columns(enabled).contains(column) ==> now == (SortColumn::TotalProfit, true)
        }),
{
    law_windows_are_shown_where_on(enabled, column);
    law_windows_are_shown_where_on(enabled, SortColumn::TotalProfit);
}

/// Only the heading of the column that is sorted by has an arrow, which points down
/// where the highest comes first, and up where the lowest does.
pub proof fn law_arrow_marks_the_sorted_column(
    column: SortColumn,
    sorted_by: SortColumn,
    desc: bool,
)
    ensures
        column != sorted_by ==> heading_with_arrow(column, sorted_by, desc) == heading(column),
        column == sorted_by ==> heading_with_arrow(column, sorted_by, desc).last() == (if desc {
            '\u{25bc}'
        } else {
            '\u{25b2}'
        }) && heading(column).is_prefix_of(heading_with_arrow(column, sorted_by, desc)),
{
    reveal_strlit("");
    reveal_strlit(" \u{25bc}");
    reveal_strlit(" \u{25b2}");
    let arrow = if desc {
        " \u{25bc}"@
    } else {
        " \u{25b2}"@
    };
    assert(heading(column) + ""@ =~= heading(column));
    assert(arrow[1] == (if desc {
        '\u{25bc}'
    } else {
        '\u{25b2}'
    }));
    assert((heading(column) + arrow).last() == arrow[1]);
}

#[verifier::spinoff_prover]
proof fn lemma_named_seconds(column: SortColumn)
    requires
        shows_velocity(column),
    ensures
        named_seconds(window_id(column)->0) == (match column {
            SortColumn::Vel6h => 21600int,
            SortColumn::Vel12h => 43200int,
            SortColumn::Vel24h => 86400int,
            SortColumn::Vel7d => 604800int,
            SortColumn::Vel2w => 1209600int,
            SortColumn::Vel1m => 2592000int,
            SortColumn::Vel3m => 7776000int,
            SortColumn::Vel6m => 15552000int,
            SortColumn::Vel1y => 31536000int,
            SortColumn::Vel2y => 63072000int,
            _ => 0int,
        }),
{
    match column {
        SortColumn::Vel6h => {
            reveal_strlit("6h");
            assert("6h"@[0] == '6' && "6h"@[1] == 'h');
            assert(named_seconds("6h"@) == 21600);
        },
        SortColumn::Vel12h => {
            reveal_strlit("12h");
            assert("12h"@[0] == '1' && "12h"@[1] == '2' && "12h"@[2] == 'h');
            assert(named_seconds("12h"@) == 43200);
        },
        SortColumn::Vel24h => {
            reveal_strlit("24h");
            assert("24h"@[0] == '2' && "24h"@[1] == '4' && "24h"@[2] == 'h');
            assert(named_seconds("24h"@) == 86400);
        },
        SortColumn::Vel7d => {
            reveal_strlit("7d");
            assert("7d"@[0] == '7' && "7d"@[1] == 'd');
            assert(named_seconds("7d"@) == 604800);
        },
        SortColumn::Vel2w => {
            reveal_strlit("2w");
            assert("2w"@[0] == '2' && "2w"@[1] == 'w');
            assert(named_seconds("2w"@) == 1209600);
        },
        SortColumn::Vel1m => {
            reveal_strlit("1m");
            assert("1m"@[0] == '1' && "1m"@[1] == 'm');
            assert(named_seconds("1m"@) == 2592000);
        },
        SortColumn::Vel3m => {
            reveal_strlit("3m");
            assert("3m"@[0] == '3' && "3m"@[1] == 'm');
            assert(named_seconds("3m"@) == 7776000);
        },
        SortColumn::Vel6m => {
            reveal_strlit("6m");
            assert("6m"@[0] == '6' && "6m"@[1] == 'm');
            assert(named_seconds("6m"@) == 15552000);
        },
        SortColumn::Vel1y => {
            reveal_strlit("1y");
            assert("1y"@[0] == '1' && "1y"@[1] == 'y');
            assert(named_seconds("1y"@) == 31536000);
        },
        SortColumn::Vel2y => {
            reveal_strlit("2y");
            assert("2y"@[0] == '2' && "2y"@[1] == 'y');
            assert(named_seconds("2y"@) == 63072000);
        },
        _ => {},
    }
}

/// Windows are listed from the shortest to the longest, and the columns that show no
/// velocity stand before all of them.
pub proof fn law_shorter_windows_come_first(enabled: Seq<SortColumn>, i: int, j: int)
    ensures
        0 <= i < j < shown_windows(enabled).len() ==> named_seconds(
            window_id(shown_windows(enabled)[i])->0,
        ) < named_seconds(window_id(shown_windows(enabled)[j])->0),
        0 <= i < j < shown_columns(enabled).len() && shows_velocity(shown_columns(enabled)[i])
            ==> shows_velocity(shown_columns(enabled)[j]) && named_seconds(
            window_id(shown_columns(enabled)[i])->0,
        ) < named_seconds(window_id(shown_columns(enabled)[j])->0),
{
    let keep = |c: SortColumn| !shows_velocity(c) || enabled.contains(c);
    let on = |c: SortColumn| enabled.contains(c);
    let before = |a: SortColumn, b: SortColumn|
        shows_velocity(a) ==> shows_velocity(b) && named_seconds(window_id(a)->0) < named_seconds(
            window_id(b)->0,
        );
    let all = all_columns();
    let windows = velocity_columns();
    assert forall|a: int, b: int|
        #![trigger all[a], all[b]]
        0 <= a < b < all.len() implies before(all[a], all[b]) by {
        if shows_velocity(all[a]) {
            lemma_named_seconds(all[a]);
            lemma_named_seconds(all[b]);
        }
    }
    assert forall|a: int, b: int|
        #![trigger windows[a], windows[b]]
        0 <= a < b < windows.len() implies before(windows[a], windows[b]) by {
        lemma_named_seconds(windows[a]);
        lemma_named_seconds(windows[b]);
    }
    lemma_filter_keeps_order(all, keep, before);
    lemma_filter_keeps_order(windows, on, before);
    if 0 <= i < j < shown_windows(enabled).len() {
        windows.lemma_filter_contains_rev(on, shown_windows(enabled)[i]);
        let k: int = windows.index_of(shown_windows(enabled)[i]);
        assert(shows_velocity(windows[k]));
        assert(before(shown_windows(enabled)[i], shown_windows(enabled)[j]));
    }
    if 0 <= i < j < shown_columns(enabled).len() {
        assert(before(shown_columns(enabled)[i], shown_columns(enabled)[j]));
    }
}

} // verus!
