//! Academic terms: semester ids, term boundaries and the teaching week.

use crate::clock::{date_exists, day_number, days_from_ce, LocalMoment};
use crate::text::{parse_u32, parse_u32_spec, trim_str, trimmed};
use vstd::prelude::*;

verus! {

/// The calendar service's id of the half-year `term` (1 or 2) of the
/// academic year starting in `year`; the 2018 ids are one lower, and ids
/// start at 1.
pub open spec fn semester_id_of(year: int, term: int) -> int {
    let r = 2 * year - 4035 + term;
    if year == 2018 {
        r - 1
    } else if r < 1 {
        1
    } else {
        r
    }
}

pub fn year_to_semester_id(year: i32, term: i32) -> (r: i32)
    requires
        i32::MIN < 2 * year - 4035 + term <= i32::MAX,
    ensures
        r == semester_id_of(year as int, term as int),
{
    let mut r: i32 = (2 * (year as i64) - 4035 + term as i64) as i32;
    if year == 2018 {
        r = r - 1;
    } else if r < 1 {
        r = 1;
    }
    r
}

/// Division rounding toward zero, as Rust's `/` on signed integers does.
pub open spec fn trunc_div(a: int, b: int) -> int {
    if a >= 0 {
        a / b
    } else {
        -((-a) / b)
    }
}

/// Remainder with the sign of `a`, as Rust's `%` on signed integers.
pub open spec fn trunc_rem(a: int, b: int) -> int {
    a - b * trunc_div(a, b)
}

/// The `(year, term, week)` that the `date_count`-th probe of a listing
/// stands for: probes walk thirty weeks of a term at a time, alternating
/// terms, over the six academic years before `now_year`.
pub open spec fn probe_of(now_year: int, date_count: int) -> (int, int, int) {
    (
        now_year - 6 + trunc_rem(trunc_div(date_count, 30), 2) + trunc_div(date_count, 60),
        2 - trunc_rem(trunc_div(date_count, 30), 2),
        trunc_rem(date_count, 30) + 1,
    )
}

pub fn date_count_to_year_term_week(now_year: i32, date_count: i32) -> (r: (i32, i32, i64))
    requires
        i32::MIN <= probe_of(now_year as int, date_count as int).0 <= i32::MAX,
    ensures
        r.0 == probe_of(now_year as int, date_count as int).0,
        r.1 == probe_of(now_year as int, date_count as int).1,
        r.2 == probe_of(now_year as int, date_count as int).2,
{
    let c: i64 = date_count as i64;
    let half: i64 = tdiv(c, 30);
    let parity: i64 = half - 2 * tdiv(half, 2);
    let year: i64 = now_year as i64 - 6 + parity + tdiv(c, 60);
    proof {
        lemma_trunc_bounds(c as int, 30);
        lemma_trunc_bounds(half as int, 2);
        lemma_trunc_bounds(c as int, 60);
    }
    (year as i32, (2 - parity) as i32, c - 30 * half + 1)
}

/// Division rounding toward zero.
fn tdiv(a: i64, b: i64) -> (r: i64)
    requires
        b > 0,
        a > i64::MIN,
    ensures
        r == trunc_div(a as int, b as int),
{
    if a >= 0 {
        a / b
    } else {
        -((-a) / b)
    }
}

proof fn lemma_trunc_bounds(a: int, b: int)
    requires
        b > 1,
    ensures
        -b < trunc_rem(a, b) < b,
        a >= 0 ==> 0 <= trunc_div(a, b) <= a,
        a < 0 ==> a <= trunc_div(a, b) <= 0,
{
    let m = if a >= 0 { a } else { -a };
    vstd::arithmetic::div_mod::lemma_fundamental_div_mod(m, b);
    vstd::arithmetic::div_mod::lemma_mod_bound(m, b);
    vstd::arithmetic::div_mod::lemma_div_pos_is_pos(m, b);
    vstd::arithmetic::div_mod::lemma_div_is_ordered_by_denominator(m, 1, b);
    assert(m / 1 == m);
    assert(a - b * trunc_div(a, b) == (if a >= 0 { m % b } else { -(m % b) })) by (nonlinear_arith)
        requires
            m == (if a >= 0 { a } else { -a }),
            trunc_div(a, b) == (if a >= 0 { m / b } else { -(m / b) }),
            m == b * (m / b) + m % b,
    ;
}

/// Month and day as one comparable number, `month * 100 + day`.
pub open spec fn date_number_of(month: int, day: int) -> int {
    month * 100 + day
}

pub fn date_number(month: u32, day: u32) -> (r: u32)
    requires
        date_number_of(month as int, day as int) <= u32::MAX,
    ensures
        r == date_number_of(month as int, day as int),
{
    month * 100 + day
}

/// The first index at or after `from` where `s` holds `c`, else `s.len()`.
pub open spec fn find_from(s: Seq<char>, c: char, from: int) -> int
    decreases s.len() - from,
{
    if from >= s.len() {
        s.len() as int
    } else if s[from] == c {
        from
    } else {
        find_from(s, c, from + 1)
    }
}

/// A `month-day` date, such as `"02-26"`: the pieces before the first `-`
/// and between it and the next `-` (or the end), each with surrounding white
/// space trimmed and read as a number.
pub open spec fn parse_date_number_spec(s: Seq<char>) -> Option<u32> {
    let p = find_from(s, '-', 0);
    let q = find_from(s, '-', p + 1);
    if p >= s.len() {
        None
    } else {
        match (
            parse_u32_spec(trimmed(s.subrange(0, p))),
            parse_u32_spec(trimmed(s.subrange(p + 1, q))),
        ) {
            (Some(m), Some(d)) => if date_number_of(m as int, d as int) <= u32::MAX {
                Some(date_number_of(m as int, d as int) as u32)
            } else {
                None
            },
            _ => None,
        }
    }
}

proof fn lemma_find_from_bounds(s: Seq<char>, c: char, from: int)
    requires
        0 <= from,
    ensures
        from <= find_from(s, c, from) <= s.len() || (from > s.len() && find_from(s, c, from)
            == s.len()),
    decreases s.len() - from,
{
    if from < s.len() && s[from] != c {
        lemma_find_from_bounds(s, c, from + 1);
    }
}

fn find_char(s: &str, c: char, from: usize) -> (r: usize)
    requires
        from <= s@.len(),
    ensures
        r == find_from(s@, c, from as int),
{
    let n: usize = s.unicode_len();
    let mut i: usize = from;
    while i < n
        invariant
            from <= i <= n,
            n == s@.len(),
            find_from(s@, c, from as int) == find_from(s@, c, i as int),
        decreases n - i,
    {
        if s.get_char(i) == c {
            return i;
        }
        i = i + 1;
    }
    i
}

/// Reads a `month-day` date as `month * 100 + day`.
pub fn parse_date_number(s: &str) -> (r: Option<u32>)
    ensures
        r == parse_date_number_spec(s@),
{
    let n: usize = s.unicode_len();
    let p: usize = find_char(s, '-', 0);
    if p >= n {
        return None;
    }
    proof {
        lemma_find_from_bounds(s@, '-', p + 1);
    }
    let q: usize = find_char(s, '-', p + 1);
    let month = trim_str(s.substring_char(0, p));
    let day = trim_str(s.substring_char(p + 1, q));
    match (parse_u32(month.as_str()), parse_u32(day.as_str())) {
        (Some(m), Some(d)) => {
            if m <= (u32::MAX - d) / 100 {
                Some(m * 100 + d)
            } else {
                None
            }
        },
        _ => None,
    }
}

/// Where today's date falls among the term boundaries.
#[derive(Clone, Copy, Debug, PartialEq, Eq)]
pub enum TermChoice {
    /// Between the start of the spring half and that of the autumn half:
    /// the second half of the academic year that began last year.
    PreviousSecondHalf,
    /// On or after the start of the autumn half: the first half of the
    /// academic year that begins this year.
    CurrentFirstHalf,
    /// Before the spring half began: still the first half of the academic
    /// year that began last year, whose start must be asked for.
    BeforeSpring,
}

/// `today`, `spring` and `autumn` are `month * 100 + day` numbers; an
/// autumn start that could not be had counts as never reached.
pub open spec fn term_choice_of(today: int, spring: int, autumn: Option<u32>) -> TermChoice {
    let a = match autumn {
        Some(a) => a as int,
        None => u32::MAX as int,
    };
    if spring <= today && today < a {
        TermChoice::PreviousSecondHalf
    } else if a <= today {
        TermChoice::CurrentFirstHalf
    } else {
        TermChoice::BeforeSpring
    }
}

pub fn choose_term(today: u32, spring: u32, autumn: Option<u32>) -> (r: TermChoice)
    ensures
        r == term_choice_of(today as int, spring as int, autumn),
{
    let a: u32 = match autumn {
        Some(a) => a,
        None => u32::MAX,
    };
    if spring <= today && today < a {
        TermChoice::PreviousSecondHalf
    } else if a <= today {
        TermChoice::CurrentFirstHalf
    } else {
        TermChoice::BeforeSpring
    }
}

/// The start of the chosen term when the boundaries already asked for give
/// it: the spring start, or the autumn start; `None` when the start of the
/// term before spring must still be asked for.
pub fn known_term_start(choice: TermChoice, spring: u32, autumn: Option<u32>) -> (r: Option<u32>)
    ensures
        r == match choice {
            TermChoice::PreviousSecondHalf => Some(spring),
            TermChoice::CurrentFirstHalf => autumn,
            TermChoice::BeforeSpring => None::<u32>,
        },
{
    match choice {
        TermChoice::PreviousSecondHalf => Some(spring),
        TermChoice::CurrentFirstHalf => autumn,
        TermChoice::BeforeSpring => None,
    }
}

/// The `(term_year, term)` that a choice stands for in calendar year `year`.
pub open spec fn term_of(choice: TermChoice, year: int) -> (int, int) {
    match choice {
        TermChoice::PreviousSecondHalf => (year - 1, 2),
        TermChoice::CurrentFirstHalf => (year, 1),
        TermChoice::BeforeSpring => (year - 1, 1),
    }
}

/// The calendar year in which the chosen term began.
pub open spec fn term_start_year(choice: TermChoice, year: int) -> int {
    match choice {
        TermChoice::BeforeSpring => year - 1,
        _ => year,
    }
}

/// The teaching week of day `today` in a term that began on day `start`:
/// whole weeks since the start, counted from 1.
pub open spec fn week_of(today: int, start: int) -> int {
    (today - start) / 7 + 1
}

pub fn week_between(today: i32, start: i32) -> (r: i64)
    ensures
        r == week_of(today as int, start as int),
{
    let d: i64 = today as i64 - start as i64;
    let shift: i64 = 700_000_000;
    proof {
        vstd::arithmetic::div_mod::lemma_hoist_over_denominator(d as int, shift as int, 7);
    }
    (d + 7 * shift) / 7 - shift + 1
}

/// A resolved term and teaching week.
#[derive(Clone, Copy, Debug, PartialEq, Eq)]
pub struct TermWeek {
    pub term_year: i32,
    pub term: i32,
    pub week: i64,
}

/// The term and week for `today`, when the chosen term began on the
/// `month * 100 + day` number `start`.
pub open spec fn term_week_of(today: LocalMoment, choice: TermChoice, start: u32) -> TermWeek {
    TermWeek {
        term_year: term_of(choice, today.year as int).0 as i32,
        term: term_of(choice, today.year as int).1 as i32,
        week: week_of(
            days_from_ce(today.year, today.month, today.day),
            days_from_ce(
                term_start_year(choice, today.year as int) as i32,
                start / 100,
                start % 100,
            ),
        ) as i64,
    }
}

/// Both today and the start of the chosen term are days of the calendar.
pub open spec fn term_dates_exist(today: LocalMoment, choice: TermChoice, start: u32) -> bool {
    &&& date_exists(today.year, today.month, today.day)
    &&& date_exists(term_start_year(choice, today.year as int) as i32, start / 100, start % 100)
}

/// The term and week for `today`, given the start (`month * 100 + day`) of
/// the chosen term. `None` exactly when either date does not exist in the
/// calendar.
pub fn term_week(today: &LocalMoment, choice: TermChoice, start: u32) -> (r: Option<TermWeek>)
    requires
        today.year > i32::MIN,
    ensures
        r is Some <==> term_dates_exist(*today, choice, start),
        r matches Some(w) ==> w == term_week_of(*today, choice, start),
        r matches Some(w) ==> w.week as int == week_of(
            days_from_ce(today.year, today.month, today.day),
            days_from_ce(
                term_start_year(choice, today.year as int) as i32,
                start / 100,
                start % 100,
            ),
        ),
{
    let (term_year, term): (i32, i32) = match choice {
        TermChoice::PreviousSecondHalf => (today.year - 1, 2),
        TermChoice::CurrentFirstHalf => (today.year, 1),
        TermChoice::BeforeSpring => (today.year - 1, 1),
    };
    let start_year: i32 = match choice {
        TermChoice::BeforeSpring => today.year - 1,
        _ => today.year,
    };
    let today_days = day_number(today.year, today.month, today.day);
    let start_days = day_number(start_year, start / 100, start % 100);
    match (today_days, start_days) {
        (Some(t), Some(s)) => Some(TermWeek { term_year, term, week: week_between(t, s) }),
        _ => None,
    }
}

/// Stability: two resolutions on the same date, against the same term
/// boundaries, choose the same term and give the same result, success
/// included.
pub proof fn lemma_term_resolution_stable(
    a: LocalMoment,
    b: LocalMoment,
    spring: u32,
    autumn: Option<u32>,
    before_spring_start: u32,
)
    requires
        a.year == b.year,
        a.month == b.month,
        a.day == b.day,
    ensures
        ({
            let c = term_choice_of(date_number_of(a.month as int, a.day as int), spring as int, autumn);
            let start = match c {
                TermChoice::PreviousSecondHalf => spring,
                TermChoice::CurrentFirstHalf => autumn->0,
                TermChoice::BeforeSpring => before_spring_start,
            };
            &&& c == term_choice_of(date_number_of(b.month as int, b.day as int), spring as int, autumn)
            &&& term_dates_exist(a, c, start) == term_dates_exist(b, c, start)
            &&& term_week_of(a, c, start) == term_week_of(b, c, start)
        }),
{
}

/// A term that began on or before today is in its first week or later, and
/// the term chosen is half 1 or 2 of the year before or of this year.
pub proof fn lemma_term_week_positive(today: LocalMoment, choice: TermChoice, start: u32)
    requires
        today.year > i32::MIN,
        days_from_ce(term_start_year(choice, today.year as int) as i32, start / 100, start % 100)
            <= days_from_ce(today.year, today.month, today.day),
    ensures
        week_of(
            days_from_ce(today.year, today.month, today.day),
            days_from_ce(term_start_year(choice, today.year as int) as i32, start / 100, start % 100),
        ) >= 1,
        term_week_of(today, choice, start).term == 1 || term_week_of(today, choice, start).term == 2,
        today.year - 1 <= term_week_of(today, choice, start).term_year <= today.year,
{
    let t = days_from_ce(today.year, today.month, today.day);
    let s = days_from_ce(term_start_year(choice, today.year as int) as i32, start / 100, start % 100);
    assert((t - s) / 7 >= 0) by (nonlinear_arith)
        requires
            t - s >= 0,
    ;
}

} // verus!
