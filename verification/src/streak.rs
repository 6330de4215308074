//! Streaks of days on which planned work was done: the current streak
//! counted back from today, and the longest streak ever.

use vstd::prelude::*;
use vstd::string::*;

use crate::models::StreakInfo;
use crate::util::{parse_ymd, spec_parse_ymd, valid_day, MIN_DAY};

verus! {

/// What happened on one day: whether tasks were planned for it, and whether
/// at least one of them was done.
#[derive(Debug, Clone, Copy)]
pub struct DayStatus {
    pub day: i32,
    pub has_task: bool,
    pub completed: bool,
}

/// One row of the per-day task counts: a planned day as text, the number of
/// tasks planned for it and the number done.
#[derive(Debug)]
pub struct DayRow {
    pub plan_date: String,
    pub task_count: i64,
    pub done_count: i64,
}

/// No day appears twice.
pub open spec fn days_distinct(map: Seq<DayStatus>) -> bool {
    forall|a: int, b: int| 0 <= a < map.len() && 0 <= b < map.len() && a != b ==> #[trigger] map[a].day != #[trigger] map[b].day
}

/// The status of day `d`, if the map has it.
pub open spec fn status_of(map: Seq<DayStatus>, d: int) -> Option<DayStatus> {
    if exists|k: int| 0 <= k < map.len() && #[trigger] map[k].day == d {
        Some(map[choose|k: int| 0 <= k < map.len() && #[trigger] map[k].day == d])
    } else {
        None
    }
}

/// Day `d` had tasks and none of them was done.
pub open spec fn unfinished_day(map: Seq<DayStatus>, d: int) -> bool {
    status_of(map, d) is Some && status_of(map, d)->0.has_task && !status_of(map, d)->0.completed
}

/// Day `d` had tasks and at least one was done.
pub open spec fn done_day(map: Seq<DayStatus>, d: int) -> bool {
    status_of(map, d) is Some && status_of(map, d)->0.has_task && status_of(map, d)->0.completed
}

/// The number of done days among `start`, `start - 1`, ... (`n` days at
/// most), stopping at the first unfinished day; days without tasks are
/// passed over.
pub open spec fn streak_back(map: Seq<DayStatus>, start: int, n: nat) -> int
    decreases n,
{
    if n == 0 || unfinished_day(map, start) {
        0
    } else {
        streak_back(map, start - 1, (n - 1) as nat) + if done_day(map, start) {
            1int
        } else {
            0int
        }
    }
}

/// How far back the current streak is looked for.
pub open spec fn look_back() -> nat {
    3650
}

/// The current streak on `today`: nothing when today's tasks are all
/// unfinished; otherwise today (when done) and the done days before it, back
/// to the last unfinished day (at most ten years back).
pub open spec fn current_streak(map: Seq<DayStatus>, today: int) -> int {
    if unfinished_day(map, today) {
        0
    } else {
        (if done_day(map, today) {
            1int
        } else {
            0int
        }) + streak_back(map, today - 1, look_back())
    }
}

/// The latest unfinished day before day `d`, among the first `upto` entries.
pub open spec fn last_break(map: Seq<DayStatus>, d: int, upto: int) -> Option<int>
    decreases upto,
{
    if upto <= 0 {
        None
    } else {
        let prev = last_break(map, d, upto - 1);
        let e = map[upto - 1];
        if e.has_task && !e.completed && e.day < d {
            match prev {
                Some(b) => if e.day > b {
                    Some(e.day as int)
                } else {
                    Some(b)
                },
                None => Some(e.day as int),
            }
        } else {
            prev
        }
    }
}

/// The number of done days, among the first `upto` entries, from just after
/// `brk` (from the start when there is none) up to day `d`.
pub open spec fn run_count(map: Seq<DayStatus>, d: int, brk: Option<int>, upto: int) -> int
    decreases upto,
{
    if upto <= 0 {
        0
    } else {
        let e = map[upto - 1];
        run_count(map, d, brk, upto - 1) + if e.has_task && e.completed && e.day <= d && (brk is None || e.day
            > brk->0) {
            1int
        } else {
            0int
        }
    }
}

/// The streak that ends on the done day `d`: the done days since the last
/// unfinished day before `d`.
pub open spec fn run_ending(map: Seq<DayStatus>, d: int) -> int {
    run_count(map, d, last_break(map, d, map.len() as int), map.len() as int)
}

/// The longest streak among the first `upto` entries.
pub open spec fn longest_upto(map: Seq<DayStatus>, upto: int) -> int
    decreases upto,
{
    if upto <= 0 {
        0
    } else {
        let prev = longest_upto(map, upto - 1);
        let e = map[upto - 1];
        if e.has_task && e.completed && run_ending(map, e.day as int) > prev {
            run_ending(map, e.day as int)
        } else {
            prev
        }
    }
}

/// The longest streak ever: the longest run of done days not broken by an
/// unfinished day (days without tasks do not break a run).
pub open spec fn longest_streak(map: Seq<DayStatus>) -> int {
    longest_upto(map, map.len() as int)
}

fn lookup(map: &Vec<DayStatus>, d: i32) -> (r: Option<DayStatus>)
    requires
        days_distinct(map@),
    ensures
        r == status_of(map@, d as int),
{
    let mut k: usize = 0;
    while k < map.len()
        invariant
            k <= map@.len(),
            days_distinct(map@),
            forall|a: int| 0 <= a < k ==> #[trigger] map@[a].day != d,
        decreases map@.len() - k,
    {
        if map[k].day == d {
            proof {
                let c = choose|j: int| 0 <= j < map@.len() && #[trigger] map@[j].day == d as int;
                if c != k as int {
                    assert(map@[c].day != map@[k as int].day);
                }
            }
            return Some(map[k]);
        }
        k = k + 1;
    }
    None
}

/// The current streak on `today`, and whether something was done today.
pub fn calc_current_streak(today: i32, map: &Vec<DayStatus>) -> (r: (i64, bool))
    requires
        days_distinct(map@),
        valid_day(today as int),
        valid_day(today - 3651),
    ensures
        r.0 == current_streak(map@, today as int),
        r.1 == (status_of(map@, today as int) is Some && status_of(map@, today as int)->0.completed),
{
    let today_entry = lookup(map, today);
    let completed_today = match today_entry {
        Some(e) => e.completed,
        None => false,
    };
    let today_unfinished = match today_entry {
        Some(e) => e.has_task && !e.completed,
        None => false,
    };
    if today_unfinished {
        return (0, completed_today);
    }
    let mut streak: i64 = match today_entry {
        Some(e) => if e.has_task && e.completed {
            1
        } else {
            0
        },
        None => 0,
    };
    let ghost first = streak as int;
    let mut cursor: i32 = today - 1;
    let mut i: u32 = 0;
    let mut stopped = false;
    while i < 3650 && !stopped
        invariant
            days_distinct(map@),
            valid_day(today - 3651),
            i <= 3650,
            cursor == today - 1 - i,
            0 <= first <= 1,
            0 <= streak <= first + i,
            stopped ==> unfinished_day(map@, cursor as int),
            first + streak_back(map@, today - 1, look_back()) == streak + streak_back(
                map@,
                cursor as int,
                (3650 - i) as nat,
            ),
        decreases 3650 - i, if stopped { 0int } else { 1int },
    {
        let e = lookup(map, cursor);
        let unfinished = match e {
            Some(e) => e.has_task && !e.completed,
            None => false,
        };
        if unfinished {
            stopped = true;
        } else {
            let done = match e {
                Some(e) => e.has_task && e.completed,
                None => false,
            };
            if done {
                streak = streak + 1;
            }
            cursor = cursor - 1;
            i = i + 1;
        }
    }
    (streak, completed_today)
}

/// The latest unfinished day before `d`.
fn find_last_break(map: &Vec<DayStatus>, d: i32) -> (r: Option<i32>)
    ensures
        match last_break(map@, d as int, map@.len() as int) {
            Some(b) => r == Some(b as i32) && i32::MIN <= b <= i32::MAX,
            None => r is None,
        },
{
    let mut best: Option<i32> = None;
    let mut k: usize = 0;
    while k < map.len()
        invariant
            k <= map@.len(),
            match last_break(map@, d as int, k as int) {
                Some(b) => best == Some(b as i32) && i32::MIN <= b <= i32::MAX,
                None => best is None,
            },
        decreases map@.len() - k,
    {
        let e = map[k];
        if e.has_task && !e.completed && e.day < d {
            best = match best {
                Some(b) => if e.day > b {
                    Some(e.day)
                } else {
                    Some(b)
                },
                None => Some(e.day),
            };
        }
        k = k + 1;
    }
    best
}

/// The streak that ends on day `d`.
fn run_length(map: &Vec<DayStatus>, d: i32) -> (r: i64)
    requires
        map@.len() <= i64::MAX,
    ensures
        r == run_ending(map@, d as int),
        0 <= r <= map@.len(),
{
    let brk = find_last_break(map, d);
    let mut count: i64 = 0;
    let mut k: usize = 0;
    while k < map.len()
        invariant
            map@.len() <= i64::MAX,
            k <= map@.len(),
            0 <= count <= k,
            match last_break(map@, d as int, map@.len() as int) {
                Some(b) => brk == Some(b as i32) && i32::MIN <= b <= i32::MAX,
                None => brk is None,
            },
            count == run_count(map@, d as int, last_break(map@, d as int, map@.len() as int), k as int),
        decreases map@.len() - k,
    {
        let e = map[k];
        let after = match brk {
            Some(b) => e.day > b,
            None => true,
        };
        if e.has_task && e.completed && e.day <= d && after {
            count = count + 1;
        }
        k = k + 1;
    }
    count
}

/// The longest streak ever.
pub fn calc_longest_streak(map: &Vec<DayStatus>) -> (r: i64)
    requires
        map@.len() <= i64::MAX,
    ensures
        r == longest_streak(map@),
        0 <= r,
{
    let mut best: i64 = 0;
    let mut k: usize = 0;
    while k < map.len()
        invariant
            map@.len() <= i64::MAX,
            k <= map@.len(),
            0 <= best,
            best == longest_upto(map@, k as int),
        decreases map@.len() - k,
    {
        let e = map[k];
        if e.has_task && e.completed {
            let run = run_length(map, e.day);
            if run > best {
                best = run;
            }
        }
        k = k + 1;
    }
    best
}

/// The milestone reached by the longest streak: `master` from 30 days,
/// `expert` from 14, `none` below.
pub fn calc_milestone(longest_streak: i64) -> (r: String)
    ensures
        r@ == (if longest_streak >= 30 {
            "master"@
        } else if longest_streak >= 14 {
            "expert"@
        } else {
            "none"@
        }),
{
    if longest_streak >= 30 {
        String::from_str("master")
    } else if longest_streak >= 14 {
        String::from_str("expert")
    } else {
        String::from_str("none")
    }
}

/// The streaks on `today`: the current one, the longest ever (never below
/// the current one), whether something was done today, and the milestone of
/// the longest.
pub fn calc_streak(today: i32, map: &Vec<DayStatus>) -> (r: StreakInfo)
    requires
        days_distinct(map@),
        map@.len() <= i64::MAX,
        valid_day(today as int),
        valid_day(today - 3651),
    ensures
        r.current_streak == current_streak(map@, today as int),
        r.longest_streak == if longest_streak(map@) >= current_streak(map@, today as int) {
            longest_streak(map@)
        } else {
            current_streak(map@, today as int)
        },
        r.completed_today == (status_of(map@, today as int) is Some && status_of(map@, today as int)->0.completed),
        r.milestone@ == (if r.longest_streak >= 30 {
            "master"@
        } else if r.longest_streak >= 14 {
            "expert"@
        } else {
            "none"@
        }),
{
    let (current, completed_today) = calc_current_streak(today, map);
    let mut longest = calc_longest_streak(map);
    if current > longest {
        longest = current;
    }
    let milestone = calc_milestone(longest);
    StreakInfo { current_streak: current, longest_streak: longest, completed_today, milestone }
}

/// The status that the first `upto` rows give day `d`: the last row whose
/// text parses to `d` decides.
pub open spec fn row_status(rows: Seq<DayRow>, d: int, upto: int) -> Option<DayStatus>
    decreases upto,
{
    if upto <= 0 {
        None
    } else {
        let r = rows[upto - 1];
        if spec_parse_ymd(r.plan_date@) is Ok && spec_parse_ymd(r.plan_date@)->Ok_0 == d {
            Some(DayStatus { day: d as i32, has_task: r.task_count > 0, completed: r.done_count > 0 })
        } else {
            row_status(rows, d, upto - 1)
        }
    }
}

proof fn lemma_status_at(map: Seq<DayStatus>, k: int)
    requires
        days_distinct(map),
        0 <= k < map.len(),
    ensures
        status_of(map, map[k].day as int) == Some(map[k]),
{
    let c = choose|j: int| 0 <= j < map.len() && #[trigger] map[j].day == map[k].day as int;
    if c != k {
        assert(map[c].day != map[k].day);
    }
}

/// The status of each day from the per-day rows; rows whose day does not
/// parse are passed over.
pub fn load_day_map(rows: &Vec<DayRow>) -> (map: Vec<DayStatus>)
    ensures
        days_distinct(map@),
        forall|d: int| #[trigger] status_of(map@, d) == row_status(rows@, d, rows@.len() as int),
{
    let mut map: Vec<DayStatus> = Vec::new();
    let mut k: usize = 0;
    while k < rows.len()
        invariant
            k <= rows@.len(),
            days_distinct(map@),
            forall|d: int| #[trigger] status_of(map@, d) == row_status(rows@, d, k as int),
        decreases rows@.len() - k,
    {
        let r = &rows[k];
        match parse_ymd(r.plan_date.as_str()) {
            Ok(d) => {
                let st = DayStatus { day: d, has_task: r.task_count > 0, completed: r.done_count > 0 };
                let mut idx: Option<usize> = None;
                let mut j: usize = 0;
                while j < map.len()
                    invariant
                        j <= map@.len(),
                        match idx {
                            Some(i) => i < map@.len() && map@[i as int].day == d,
                            None => forall|a: int| 0 <= a < j ==> #[trigger] map@[a].day != d,
                        },
                    decreases map@.len() - j,
                {
                    if idx.is_none() && map[j].day == d {
                        idx = Some(j);
                    }
                    j = j + 1;
                }
                let ghost old_map = map@;
                match idx {
                    Some(i) => {
                        map.set(i, st);
                    },
                    None => {
                        map.push(st);
                    },
                }
                proof {
                    assert(days_distinct(map@)) by {
                        assert forall|a: int, b: int|
                            0 <= a < map@.len() && 0 <= b < map@.len() && a != b implies #[trigger] map@[a].day
                                != #[trigger] map@[b].day by {
                            if idx is None {
                                if a < old_map.len() && b < old_map.len() {
                                    assert(old_map[a].day != old_map[b].day);
                                } else if a < old_map.len() {
                                    assert(old_map[a].day != d);
                                } else {
                                    assert(old_map[b].day != d);
                                }
                            } else {
                                let i = idx->0 as int;
                                if a != i && b != i {
                                    assert(old_map[a].day != old_map[b].day);
                                } else if a == i {
                                    assert(old_map[b].day != old_map[i].day);
                                } else {
                                    assert(old_map[a].day != old_map[i].day);
                                }
                            }
                        }
                    }
                    let pos = match idx {
                        Some(i) => i as int,
                        None => old_map.len() as int,
                    };
                    assert(map@[pos] == st);
                    lemma_status_at(map@, pos);
                    assert forall|x: int| #[trigger] status_of(map@, x) == row_status(rows@, x, k as int + 1) by {
                        if x != d as int {
                            assert(row_status(rows@, x, k as int + 1) == row_status(rows@, x, k as int));
                            if exists|q: int| 0 <= q < old_map.len() && #[trigger] old_map[q].day == x {
                                let q = choose|q: int| 0 <= q < old_map.len() && #[trigger] old_map[q].day == x;
                                lemma_status_at(old_map, q);
                                assert(map@[q] == old_map[q]);
                                lemma_status_at(map@, q);
                            } else {
                                assert forall|q: int| 0 <= q < map@.len() implies #[trigger] map@[q].day != x by {
                                    if q != pos {
                                        assert(map@[q] == old_map[q]);
                                    }
                                }
                            }
                        }
                    }
                }
            },
            Err(_) => {},
        }
        k = k + 1;
    }
    map
}

} // verus!
