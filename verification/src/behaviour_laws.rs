//! What single operations do, stated over all their inputs: the status a
//! completion or back-fill leaves, how far back the current streak reaches,
//! what the longest streak measures, and how the combined split uses the
//! overrides it is given.

use vstd::prelude::*;

use crate::models::{CompleteTaskInput, Goal, SmartSplitInput, Task, QTY_SCALE};
use crate::split::{
    capacity_split_outcome, even_base, even_count, even_split_outcome, lemma_even_bounds, range_split_outcome,
    smart_split_outcome,
};
use crate::util::{spec_format_ymd, spec_parse_ymd};
use crate::streak::{
    current_streak, days_distinct, done_day, last_break, longest_streak, longest_upto, run_count, run_ending, streak_back,
    unfinished_day, DayStatus,
};
use crate::tasks::{backfill_outcome, complete_outcome};
use crate::error::AppResult;

verus! {

proof fn lemma_status_texts_distinct()
    ensures
        "done"@ != "partial"@,
        "done"@ != "pending"@,
        "partial"@ != "pending"@,
{
    reveal_strlit("done");
    reveal_strlit("partial");
    reveal_strlit("pending");
    assert("done"@.len() != "partial"@.len());
    assert("done"@.len() != "pending"@.len());
    assert("partial"@[1] != "pending"@[1]);
}

/// A back-fill that is accepted (the task exists, the amount is not
/// negative, a done task's amount grows, no prerequisite is unfinished)
/// records the amount and leaves the task `done` exactly when the amount
/// reaches a positive plan, `partial` when it is otherwise positive, and
/// `pending` when it is zero.
pub proof fn law_backfill_status_follows_amount(task: Task, input: CompleteTaskInput, r: AppResult<Task>)
    requires
        backfill_outcome(Some(task), input, false, r),
        input.actual_qty >= 0,
        !(task.status@ == "done"@ && input.actual_qty <= task.actual_qty),
    ensures
        r is Ok,
        r->Ok_0.actual_qty == input.actual_qty,
        r->Ok_0.plan_qty == task.plan_qty,
        r->Ok_0.status@ == "done"@ <==> (input.actual_qty >= task.plan_qty && task.plan_qty > 0),
        r->Ok_0.status@ == "partial"@ <==> (input.actual_qty > 0 && !(input.actual_qty >= task.plan_qty
            && task.plan_qty > 0)),
        r->Ok_0.status@ == "pending"@ <==> input.actual_qty == 0,
{
    lemma_status_texts_distinct();
}

/// A completion that is accepted (the task exists and is not done, the
/// amount lies between zero and the plan, no prerequisite is unfinished)
/// records the amount and leaves the task `done` exactly when the amount is
/// the whole plan, `partial` when it is part of it, and `pending` when it is
/// zero of a positive plan.
pub proof fn law_completion_status_follows_amount(task: Task, input: CompleteTaskInput, r: AppResult<Task>)
    requires
        complete_outcome(Some(task), input, false, r),
        task.status@ != "done"@,
        0 <= input.actual_qty <= task.plan_qty,
    ensures
        r is Ok,
        r->Ok_0.actual_qty == input.actual_qty,
        r->Ok_0.status@ == "done"@ <==> input.actual_qty == task.plan_qty,
        r->Ok_0.status@ == "partial"@ <==> 0 < input.actual_qty < task.plan_qty,
        r->Ok_0.status@ == "pending"@ <==> 0 == input.actual_qty < task.plan_qty,
{
    lemma_status_texts_distinct();
}

/// The number of done days among `start`, `start - 1`, ... (`n` days).
pub open spec fn done_days_back(map: Seq<DayStatus>, start: int, n: nat) -> int
    decreases n,
{
    if n == 0 {
        0
    } else {
        done_days_back(map, start - 1, (n - 1) as nat) + if done_day(map, start) {
            1int
        } else {
            0int
        }
    }
}

/// No day among `start`, `start - 1`, ... (`n` days) had tasks all left undone.
pub open spec fn none_unfinished_back(map: Seq<DayStatus>, start: int, n: int) -> bool {
    forall|j: int| 0 <= j < n ==> !#[trigger] unfinished_day(map, start - j)
}

proof fn lemma_streak_back_nonneg(map: Seq<DayStatus>, s: int, n: nat)
    ensures
        streak_back(map, s, n) >= 0,
    decreases n,
{
    if n > 0 {
        lemma_streak_back_nonneg(map, s - 1, (n - 1) as nat);
    }
}

proof fn lemma_streak_back_counts(map: Seq<DayStatus>, s: int, n: nat, m: nat)
    requires
        m <= n,
        none_unfinished_back(map, s, m as int),
    ensures
        streak_back(map, s, n) >= done_days_back(map, s, m),
        (m == n || unfinished_day(map, s - m)) ==> streak_back(map, s, n) == done_days_back(map, s, m),
    decreases m,
{
    if m == 0 {
        lemma_streak_back_nonneg(map, s, n);
    } else {
        assert(!unfinished_day(map, s - 0));
        assert(none_unfinished_back(map, s - 1, m - 1)) by {
            assert forall|j: int| 0 <= j < m - 1 implies !#[trigger] unfinished_day(map, (s - 1) - j) by {
                assert(!unfinished_day(map, s - (j + 1)));
                assert(s - (j + 1) == (s - 1) - j);
            }
        }
        lemma_streak_back_counts(map, s - 1, (n - 1) as nat, (m - 1) as nat);
        assert((s - 1) - (m - 1) as nat == s - m);
    }
}

/// The current streak counts every done day from today back to the last
/// day with unfinished tasks, up to ten years back: when no day from today
/// back to `today - k` (`k` at most 3650) was left unfinished, the streak is
/// at least the number of done days among them, and exactly that number
/// when the day before `today - k` was left unfinished. Days without tasks
/// neither count nor break the streak.
pub proof fn law_current_streak_reaches_back(map: Seq<DayStatus>, today: int, k: int)
    requires
        0 <= k <= 3650,
        none_unfinished_back(map, today, k + 1),
    ensures
        current_streak(map, today) >= done_days_back(map, today, (k + 1) as nat),
        unfinished_day(map, today - k - 1) ==> current_streak(map, today) == done_days_back(
            map,
            today,
            (k + 1) as nat,
        ),
{
    assert(!unfinished_day(map, today - 0));
    assert(none_unfinished_back(map, today - 1, k)) by {
        assert forall|j: int| 0 <= j < k implies !#[trigger] unfinished_day(map, (today - 1) - j) by {
            assert(!unfinished_day(map, today - (j + 1)));
            assert(today - (j + 1) == (today - 1) - j);
        }
    }
    lemma_streak_back_counts(map, today - 1, 3650, k as nat);
    assert((today - 1) - k as nat == today - k - 1);
    assert(((k + 1) - 1) as nat == k as nat);
}

proof fn lemma_all_done_count(map: Seq<DayStatus>, s: int, n: nat)
    requires
        forall|j: int| 0 <= j < n ==> #[trigger] done_day(map, s - j),
    ensures
        done_days_back(map, s, n) == n,
        none_unfinished_back(map, s, n as int),
    decreases n,
{
    if n > 0 {
        assert(done_day(map, s - 0));
        assert forall|j: int| 0 <= j < n - 1 implies #[trigger] done_day(map, (s - 1) - j) by {
            assert(done_day(map, s - (j + 1)));
            assert(s - (j + 1) == (s - 1) - j);
        }
        lemma_all_done_count(map, s - 1, (n - 1) as nat);
        assert forall|j: int| 0 <= j < n implies !#[trigger] unfinished_day(map, s - j) by {
            assert(done_day(map, s - j));
        }
    }
}

/// When today and the `k` days before it (`k` at most 3650)
/// are all done, the current streak is at least `k + 1`, and exactly `k + 1`
/// when the day before them was left unfinished.
pub proof fn law_current_streak_of_done_days(map: Seq<DayStatus>, today: int, k: int)
    requires
        0 <= k <= 3650,
        forall|j: int| 0 <= j <= k ==> #[trigger] done_day(map, today - j),
    ensures
        current_streak(map, today) >= k + 1,
        unfinished_day(map, today - k - 1) ==> current_streak(map, today) == k + 1,
{
    lemma_all_done_count(map, today, (k + 1) as nat);
    law_current_streak_reaches_back(map, today, k);
}

/// No day from `a` to `b` (both included) had tasks all left undone.
pub open spec fn clean_window(map: Seq<DayStatus>, a: int, b: int) -> bool {
    forall|k: int|
        0 <= k < map.len() && (#[trigger] map[k]).has_task && !map[k].completed ==> !(a <= map[k].day <= b)
}

/// The number of done days from `a` to `b` (both included) among the first
/// `upto` entries.
pub open spec fn done_between(map: Seq<DayStatus>, a: int, b: int, upto: int) -> int
    decreases upto,
{
    if upto <= 0 {
        0
    } else {
        let e = map[upto - 1];
        done_between(map, a, b, upto - 1) + if e.has_task && e.completed && a <= e.day <= b {
            1int
        } else {
            0int
        }
    }
}

proof fn lemma_last_break(map: Seq<DayStatus>, d: int, upto: int)
    requires
        0 <= upto <= map.len(),
    ensures
        match last_break(map, d, upto) {
            None => forall|k: int|
                0 <= k < upto && (#[trigger] map[k]).has_task && !map[k].completed ==> map[k].day >= d,
            Some(x) => x < d && forall|k: int|
                0 <= k < upto && (#[trigger] map[k]).has_task && !map[k].completed && map[k].day < d ==> map[k].day
                    <= x,
        },
    decreases upto,
{
    if upto > 0 {
        lemma_last_break(map, d, upto - 1);
    }
}

proof fn lemma_run_count_is_done_between(map: Seq<DayStatus>, d: int, brk: Option<int>, lo: int, upto: int)
    requires
        0 <= upto <= map.len(),
        lo == match brk {
            Some(x) => x + 1,
            None => i32::MIN as int,
        },
    ensures
        run_count(map, d, brk, upto) == done_between(map, lo, d, upto),
    decreases upto,
{
    if upto > 0 {
        lemma_run_count_is_done_between(map, d, brk, lo, upto - 1);
    }
}

proof fn lemma_done_between_nonneg(map: Seq<DayStatus>, a: int, b: int, upto: int)
    ensures
        done_between(map, a, b, upto) >= 0,
    decreases upto,
{
    if upto > 0 {
        lemma_done_between_nonneg(map, a, b, upto - 1);
    }
}

proof fn lemma_longest_upto(map: Seq<DayStatus>, upto: int)
    requires
        0 <= upto <= map.len(),
    ensures
        longest_upto(map, upto) >= 0,
        forall|k: int|
            0 <= k < upto && (#[trigger] map[k]).has_task && map[k].completed ==> run_ending(map, map[k].day as int)
                <= longest_upto(map, upto),
        longest_upto(map, upto) == 0 || exists|k: int|
            0 <= k < upto && (#[trigger] map[k]).has_task && map[k].completed && longest_upto(map, upto) == run_ending(
                map,
                map[k].day as int,
            ),
    decreases upto,
{
    if upto > 0 {
        lemma_longest_upto(map, upto - 1);
        let e = map[upto - 1];
        if e.has_task && e.completed && run_ending(map, e.day as int) > longest_upto(map, upto - 1) {
            assert(map[upto - 1] == e);
        }
    }
}

proof fn lemma_last_done_in_window(map: Seq<DayStatus>, a: int, b: int, upto: int) -> (k: int)
    requires
        0 <= upto <= map.len(),
        done_between(map, a, b, upto) > 0,
    ensures
        0 <= k < upto,
        map[k].has_task && map[k].completed && a <= map[k].day <= b,
        forall|j: int|
            0 <= j < upto && (#[trigger] map[j]).has_task && map[j].completed && a <= map[j].day <= b ==> map[j].day
                <= map[k].day,
    decreases upto,
{
    let e = map[upto - 1];
    if done_between(map, a, b, upto - 1) > 0 {
        let k0 = lemma_last_done_in_window(map, a, b, upto - 1);
        if e.has_task && e.completed && a <= e.day <= b && e.day > map[k0].day {
            upto - 1
        } else {
            k0
        }
    } else {
        lemma_done_between_nonneg(map, a, b, upto - 1);
        assert forall|j: int|
            0 <= j < upto - 1 && (#[trigger] map[j]).has_task && map[j].completed && a <= map[j].day <= b implies false by {
            lemma_done_positive(map, a, b, upto - 1, j);
        }
        upto - 1
    }
}

proof fn lemma_done_positive(map: Seq<DayStatus>, a: int, b: int, upto: int, j: int)
    requires
        0 <= j < upto <= map.len(),
        map[j].has_task && map[j].completed && a <= map[j].day <= b,
    ensures
        done_between(map, a, b, upto) > 0,
    decreases upto,
{
    lemma_done_between_nonneg(map, a, b, upto - 1);
    if j < upto - 1 {
        lemma_done_positive(map, a, b, upto - 1, j);
    }
}

proof fn lemma_window_trim(map: Seq<DayStatus>, a: int, b: int, c: int, upto: int)
    requires
        0 <= upto <= map.len(),
        c <= b,
        forall|j: int|
            0 <= j < map.len() && (#[trigger] map[j]).has_task && map[j].completed && a <= map[j].day <= b ==> map[j].day
                <= c,
    ensures
        done_between(map, a, b, upto) == done_between(map, a, c, upto),
    decreases upto,
{
    if upto > 0 {
        lemma_window_trim(map, a, b, c, upto - 1);
        let e = map[upto - 1];
        assert(map[upto - 1] == e);
    }
}

proof fn lemma_window_in_run(map: Seq<DayStatus>, a: int, c: int, brk: Option<int>, upto: int)
    requires
        0 <= upto <= map.len(),
        brk is None || brk->0 < a,
    ensures
        done_between(map, a, c, upto) <= run_count(map, c, brk, upto),
    decreases upto,
{
    if upto > 0 {
        lemma_window_in_run(map, a, c, brk, upto - 1);
    }
}

/// No run of done days that no unfinished day interrupts is longer than the
/// longest streak: whatever days `a` to `b` hold no day with tasks all left
/// undone, the done days among them are at most the longest streak.
pub proof fn law_no_clean_run_beats_longest(map: Seq<DayStatus>, a: int, b: int)
    requires
        clean_window(map, a, b),
    ensures
        done_between(map, a, b, map.len() as int) <= longest_streak(map),
{
    let n = map.len() as int;
    lemma_longest_upto(map, n);
    if done_between(map, a, b, n) > 0 {
        let k = lemma_last_done_in_window(map, a, b, n);
        let c = map[k].day as int;
        lemma_window_trim(map, a, b, c, n);
        let brk = last_break(map, c, n);
        lemma_last_break(map, c, n);
        if brk is Some {
            let x = brk->0;
            assert(x < c);
            // the break is an unfinished day before `c`, so it lies before the window
            assert(exists|j: int| 0 <= j < n && (#[trigger] map[j]).has_task && !map[j].completed && map[j].day == x)
                by {
                lemma_last_break_is_entry(map, c, n);
            }
            let j = choose|j: int| 0 <= j < n && (#[trigger] map[j]).has_task && !map[j].completed && map[j].day == x;
            assert(!(a <= map[j].day <= b));
        }
        lemma_window_in_run(map, a, c, brk, n);
        assert(run_ending(map, c) == run_count(map, c, brk, n));
    }
}

proof fn lemma_last_break_is_entry(map: Seq<DayStatus>, d: int, upto: int)
    requires
        0 <= upto <= map.len(),
        last_break(map, d, upto) is Some,
    ensures
        exists|j: int|
            0 <= j < upto && (#[trigger] map[j]).has_task && !map[j].completed && map[j].day == last_break(
                map,
                d,
                upto,
            )->0,
    decreases upto,
{
    let e = map[upto - 1];
    if last_break(map, d, upto - 1) is Some {
        lemma_last_break_is_entry(map, d, upto - 1);
    }
    if e.has_task && !e.completed && e.day < d {
        assert(map[upto - 1] == e);
    }
}

/// The longest streak is the number of done days of some run that no
/// unfinished day interrupts (or zero): there are days `a` to `b` without a
/// day whose tasks were all left undone, holding exactly that many done days.
pub proof fn law_longest_is_a_clean_run(map: Seq<DayStatus>)
    requires
        days_distinct(map),
    ensures
        longest_streak(map) == 0 || exists|a: int, b: int|
            #[trigger] clean_window(map, a, b) && done_between(map, a, b, map.len() as int) == longest_streak(map),
{
    let n = map.len() as int;
    lemma_longest_upto(map, n);
    if longest_streak(map) != 0 {
        let k = choose|k: int|
            0 <= k < n && (#[trigger] map[k]).has_task && map[k].completed && longest_upto(map, n) == run_ending(
                map,
                map[k].day as int,
            );
        let d = map[k].day as int;
        let brk = last_break(map, d, n);
        let lo = match brk {
            Some(x) => x + 1,
            None => i32::MIN as int,
        };
        lemma_run_count_is_done_between(map, d, brk, lo, n);
        lemma_last_break(map, d, n);
        assert forall|j: int| 0 <= j < n && (#[trigger] map[j]).has_task && !map[j].completed implies !(lo
            <= map[j].day <= d) by {
            if map[j].day == d {
                assert(j != k);
                assert(map[j].day != map[k].day);
            }
        }
        assert(clean_window(map, lo, d));
    }
}

/// The combined split is the chosen split run on the goal with the input's
/// total, deadline and daily capacity put in place of the goal's own where
/// they are given: by deadline it is the even split, by capacity the split
/// by daily capacity, by date range the split over the parsed range.
pub proof fn law_smart_split_applies_overrides(input: SmartSplitInput, goal: Goal, today: int, r: AppResult<Vec<Task>>)
    requires
        smart_split_outcome(input, goal, today, r),
    ensures
        ({
            let g2 = Goal {
                total_qty: match input.total_qty {
                    Some(q) => q,
                    None => goal.total_qty,
                },
                deadline: match input.deadline {
                    Some(d) => Some(d),
                    None => goal.deadline,
                },
                daily_capacity: match input.daily_capacity {
                    Some(c) => Some(c),
                    None => goal.daily_capacity,
                },
                ..goal
            };
            &&& input.strategy@ == "by_deadline"@ && g2.total_qty > 0 ==> even_split_outcome(g2, today, r)
            &&& input.strategy@ == "by_capacity"@ && g2.total_qty > 0 ==> capacity_split_outcome(g2, today, r)
            &&& input.strategy@ == "by_date_range"@ && input.start_date is Some && input.end_date is Some
                && spec_parse_ymd(input.start_date->0@) is Ok && spec_parse_ymd(input.end_date->0@) is Ok
                ==> range_split_outcome(
                g2,
                spec_parse_ymd(input.start_date->0@)->Ok_0,
                spec_parse_ymd(input.end_date->0@)->Ok_0,
                input.per_day_qty,
                r,
            )
        }),
{
}

/// A split by deadline with a deadline given in the input runs to that
/// deadline, not the goal's own: one task a day from tomorrow, never past
/// the given deadline, and one task for every day up to it when the total
/// holds at least one unit a day.
pub proof fn law_smart_split_runs_to_the_given_deadline(
    input: SmartSplitInput,
    goal: Goal,
    today: int,
    r: AppResult<Vec<Task>>,
    last: int,
)
    requires
        smart_split_outcome(input, goal, today, r),
        input.strategy@ == "by_deadline"@,
        input.deadline is Some,
        spec_parse_ymd(input.deadline->0@) == Ok::<int, Seq<char>>(last),
        last - today >= 1,
        (match input.total_qty {
            Some(q) => q,
            None => goal.total_qty,
        }) > 0,
    ensures
        r is Ok,
        r->Ok_0@.len() <= last - today,
        forall|k: int|
            0 <= k < r->Ok_0@.len() ==> (#[trigger] r->Ok_0@[k]).plan_date is Some && r->Ok_0@[k].plan_date->0@
                == spec_format_ymd(today + 1 + k),
        (match input.total_qty {
            Some(q) => q,
            None => goal.total_qty,
        }) >= (QTY_SCALE as int) * (last - today) ==> r->Ok_0@.len() == last - today,
{
    law_smart_split_applies_overrides(input, goal, today, r);
    let total = match input.total_qty {
        Some(q) => q as int,
        None => goal.total_qty as int,
    };
    let days = last - today;
    lemma_even_bounds(total, days);
    if total >= (QTY_SCALE as int) * days {
        assert(total / ((QTY_SCALE as int) * days) >= 1) by (nonlinear_arith)
            requires
                total >= 100 * days,
                days >= 1,
        ;
        assert(even_base(total, days) > 0);
    }
}

} // verus!
