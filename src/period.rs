//! Teaching periods ("jie") of the daily bell schedule.

use crate::clock::local_now;
use vstd::prelude::*;

verus! {

/// The periods that a lesson can start in.
pub open spec fn is_jie(j: int) -> bool {
    j == 1 || j == 3 || j == 5 || j == 7 || j == 9 || j == 11
}

/// The period that the minute `t` of the day (`hour * 60 + minute`) falls
/// in: before 10:05 the first, before 12:00 the third, before 15:35 the
/// fifth, before 17:30 the seventh, before 20:35 the ninth, else the
/// eleventh.
pub open spec fn jie_of_minute(t: int) -> int {
    if t < 10 * 60 + 5 {
        1
    } else if t < 12 * 60 {
        3
    } else if t < 15 * 60 + 35 {
        5
    } else if t < 17 * 60 + 30 {
        7
    } else if t < 20 * 60 + 35 {
        9
    } else {
        11
    }
}

/// The period before `j`; there is none before the first.
pub open spec fn previous_of(j: int) -> int {
    if j - 2 == -1 {
        1
    } else {
        j - 2
    }
}

/// The period now running or coming next; nothing comes after the
/// eleventh, so it stands for the ninth.
pub open spec fn current_of(j: int) -> int {
    if j == 11 {
        9
    } else {
        j
    }
}

/// The period asked for at `hour:minute`.
pub open spec fn jie_asked(hour: int, minute: int, previous: bool) -> int {
    if previous {
        previous_of(jie_of_minute(hour * 60 + minute))
    } else {
        current_of(jie_of_minute(hour * 60 + minute))
    }
}

/// The period that `hour:minute` falls in.
pub fn jie_at(hour: u32, minute: u32) -> (r: i32)
    requires
        hour < 24,
        minute < 60,
    ensures
        r == jie_of_minute(hour * 60 + minute),
{
    let t: u32 = hour * 60 + minute;
    if t < 10 * 60 + 5 {
        1
    } else if t < 12 * 60 {
        3
    } else if t < 15 * 60 + 35 {
        5
    } else if t < 17 * 60 + 30 {
        7
    } else if t < 20 * 60 + 35 {
        9
    } else {
        11
    }
}

/// The period before `j`, clamped at the first.
pub fn previous_jie(j: i32) -> (r: i32)
    requires
        is_jie(j as int),
    ensures
        r == previous_of(j as int),
{
    let p: i32 = j - 2;
    if p == -1 {
        1
    } else {
        p
    }
}

/// The period `j`, with the eleventh read as the ninth.
pub fn current_jie(j: i32) -> (r: i32)
    requires
        is_jie(j as int),
    ensures
        r == current_of(j as int),
{
    if j == 11 {
        9
    } else {
        j
    }
}

/// The period asked for at `hour:minute`: the previous one when `previous`
/// holds, else the current or upcoming one.
pub fn jie_for(hour: u32, minute: u32, previous: bool) -> (r: i32)
    requires
        hour < 24,
        minute < 60,
    ensures
        r == jie_asked(hour as int, minute as int, previous),
{
    proof {
        lemma_period_mapping();
    }
    let j: i32 = jie_at(hour, minute);
    if previous {
        previous_jie(j)
    } else {
        current_jie(j)
    }
}

/// The period asked for at the present local time.
pub fn now_to_jie(previous: bool) -> (r: i32)
    ensures
        exists|h: int, m: int| 0 <= h < 24 && 0 <= m < 60 && r == jie_asked(h, m, previous),
        1 <= r <= 9,
{
    proof {
        lemma_period_mapping();
    }
    let now = local_now();
    jie_for(now.hour, now.minute, previous)
}

/// Every minute of the day falls in exactly one period, later minutes in no
/// earlier period; the period before the first is the first, the one before
/// the eleventh the ninth, and the eleventh read as current is the ninth.
pub proof fn lemma_period_mapping()
    ensures
        forall|t: int| 0 <= t < 24 * 60 ==> is_jie(#[trigger] jie_of_minute(t)),
        forall|t1: int, t2: int|
            t1 <= t2 ==> #[trigger] jie_of_minute(t1) <= #[trigger] jie_of_minute(t2),
        forall|j: int| is_jie(j) ==> is_jie(#[trigger] previous_of(j)) && previous_of(j) <= 9,
        forall|j: int| is_jie(j) ==> is_jie(#[trigger] current_of(j)) && current_of(j) <= 9,
        previous_of(1) == 1,
        previous_of(11) == 9,
        current_of(11) == 9,
{
}

} // verus!
