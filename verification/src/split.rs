//! Turning a goal into dated daily tasks, and re-planning what is left.

use vstd::prelude::*;
use vstd::string::*;

use crate::error::{is_business_err, is_param_err, AppError, AppResult};
use crate::models::{Goal, RepeatSplitInput, ReplanPreview, ReplanPreviewItem, SmartSplitInput, Task, QTY_SCALE};
use crate::util::{
    decimal, format_ymd, int_text, int_to_text, new_uuid, now_local_ts, parse_ymd, qty_text, qty_to_text, spec_format_ymd,
    day_of_month, spec_day_of_month, spec_parse_ymd, spec_to_lowercase, spec_trim, str_eq, to_decimal,
    to_lowercase, trim_str, valid_day, weekday_from_sunday, weekday_of,
};

verus! {

// ------------------------------------------------------------------
// The shape of a generated task
// ------------------------------------------------------------------

/// A generated task of goal `goal_id`: named `name`, planned on `day` for
/// `qty` hundredths, at position `order`, with estimate `est`; it starts
/// pending, undone, automatic and not set by hand, and its path is the goal's
/// id followed by its own.
pub open spec fn task_shape(
    t: Task,
    goal_id: Seq<char>,
    name: Seq<char>,
    unit: Seq<char>,
    day: int,
    qty: int,
    order: int,
    est: Option<i64>,
) -> bool {
    &&& t.goal_id@ == goal_id
    &&& t.stage_id is None
    &&& t.parent_id is Some && t.parent_id->0@ == goal_id
    &&& t.path@ == "/"@ + goal_id + "/"@ + t.id@
    &&& t.name@ == name
    &&& t.plan_date is Some && t.plan_date->0@ == spec_format_ymd(day)
    &&& t.overdue_date is None
    &&& t.plan_qty == qty
    &&& t.actual_qty == 0
    &&& t.unit@ == unit
    &&& t.status@ == "pending"@
    &&& t.is_manual == 0
    &&& t.source@ == "auto"@
    &&& t.sort_order == order
    &&& t.estimated_hours == est
}

/// `base - 第n<suffix>`: the name of the n-th generated task.
pub open spec fn numbered_name(base: Seq<char>, n: int, suffix: Seq<char>) -> Seq<char> {
    base + " - 第"@ + decimal(n as nat) + suffix
}

/// All tasks of one split carry the same creation time.
pub open spec fn same_created_at(tasks: Seq<Task>) -> bool {
    forall|i: int, j: int|
        0 <= i < tasks.len() && 0 <= j < tasks.len() ==> #[trigger] tasks[i].created_at
            == #[trigger] tasks[j].created_at
}

fn numbered(base: &String, n: u64, suffix: &str) -> (r: String)
    ensures
        r@ == numbered_name(base@, n as int, suffix@),
{
    base.clone().concat(" - 第").concat(to_decimal(n).as_str()).concat(suffix)
}

fn make_task(
    goal_id: &String,
    name: String,
    unit: &String,
    day: i32,
    qty: i64,
    order: i64,
    est: Option<i64>,
    now: &String,
) -> (t: Task)
    requires
        valid_day(day as int),
    ensures
        task_shape(t, goal_id@, name@, unit@, day as int, qty as int, order as int, est),
        t.created_at == *now,
{
    let task_id = new_uuid();
    let path = String::from_str("/").concat(goal_id.as_str()).concat("/").concat(task_id.as_str());
    let date = format_ymd(day);
    Task {
        id: task_id,
        goal_id: goal_id.clone(),
        stage_id: None,
        parent_id: Some(goal_id.clone()),
        path,
        name,
        plan_date: Some(date),
        overdue_date: None,
        plan_qty: qty,
        actual_qty: 0,
        unit: unit.clone(),
        status: String::from_str("pending"),
        is_manual: 0,
        source: String::from_str("auto"),
        sort_order: order,
        created_at: now.clone(),
        estimated_hours: est,
    }
}

// ------------------------------------------------------------------
// Even distribution
// ------------------------------------------------------------------

/// Amount of every day before the remainder: the total divided by the number
/// of days, rounded down to whole units.
pub open spec fn even_base(total: int, days: int) -> int {
    (total / ((QTY_SCALE as int) * days)) * (QTY_SCALE as int)
}

/// Number of leading days that get one unit more: what is left after the
/// base, rounded to the nearest whole unit.
pub open spec fn even_remainder(total: int, days: int) -> int {
    (total - even_base(total, days) * days + (QTY_SCALE as int) / 2) / (QTY_SCALE as int)
}

/// Amount of the day with index `i`.
pub open spec fn even_qty(total: int, days: int, i: int) -> int {
    if i < even_remainder(total, days) {
        even_base(total, days) + (QTY_SCALE as int)
    } else {
        even_base(total, days)
    }
}

/// Number of days with a positive amount (days with nothing get no task).
pub open spec fn even_count(total: int, days: int) -> int {
    if even_base(total, days) > 0 {
        days
    } else {
        even_remainder(total, days)
    }
}

/// Facts on the even distribution of a positive total over `days` days.
pub proof fn lemma_even_bounds(total: int, days: int)
    requires
        total > 0,
        days >= 1,
    ensures
        0 <= even_base(total, days),
        even_base(total, days) * days <= total,
        total - even_base(total, days) * days < (QTY_SCALE as int) * days,
        0 <= even_remainder(total, days) <= days,
        0 <= even_count(total, days) <= days,
        even_base(total, days) + (QTY_SCALE as int) <= total + (QTY_SCALE as int),
        forall|i: int| 0 <= i < days ==> (#[trigger] even_qty(total, days, i) > 0 <==> i < even_count(total, days)),
{
    let u = (QTY_SCALE as int) * days;
    let w = total / u;
    assert(u > 0);
    assert(w >= 0) by (nonlinear_arith)
        requires
            total > 0,
            u > 0,
            w == total / u,
    ;
    assert(w * u <= total && total - w * u < u) by (nonlinear_arith)
        requires
            total > 0,
            u > 0,
            w == total / u,
    ;
    assert(even_base(total, days) * days == w * u) by (nonlinear_arith)
        requires
            u == (QTY_SCALE as int) * days,
            even_base(total, days) == w * (QTY_SCALE as int),
    ;
    assert(even_base(total, days) <= total) by (nonlinear_arith)
        requires
            even_base(total, days) * days <= total,
            days >= 1,
            even_base(total, days) >= 0,
    ;
    let left = total - even_base(total, days) * days;
    assert(0 <= left < (QTY_SCALE as int) * days);
    assert(even_remainder(total, days) == (left + 50) / 100);
    assert((left + 50) / 100 <= days) by (nonlinear_arith)
        requires
            0 <= left < 100 * days,
    ;
}

fn deadline_missing(msg: &str) -> (r: AppError)
    ensures
        is_param_err(r, msg@),
{
    AppError::Param(String::from_str(msg))
}

pub(crate) fn days_short_error(d: i64) -> (r: AppError)
    ensures
        is_business_err(r, "截止日期剩余天数不足（"@ + int_text(d as int) + "天），至少需要留出1天"@),
{
    AppError::Business(String::from_str("截止日期剩余天数不足（").concat(int_to_text(d).as_str()).concat("天），至少需要留出1天"))
}

/// What `split_goal_into_tasks` gives for `goal` and `today`.
pub open spec fn even_split_outcome(goal: Goal, today: int, r: AppResult<Vec<Task>>) -> bool {
    &&& goal.deadline is None ==> r is Err && is_param_err(r->Err_0, "目标未设置截止日期，无法拆解"@)
    &&& goal.deadline is Some && spec_parse_ymd(goal.deadline->0@) is Err ==> r is Err && is_param_err(
        r->Err_0,
        "截止日期格式错误: "@ + spec_parse_ymd(goal.deadline->0@)->Err_0,
    )
    &&& goal.deadline is Some && spec_parse_ymd(goal.deadline->0@) is Ok ==> ({
        let days = spec_parse_ymd(goal.deadline->0@)->Ok_0 - today;
        &&& days < 1 ==> r is Err && is_business_err(
            r->Err_0,
            "截止日期剩余天数不足（"@ + int_text(days) + "天），至少需要留出1天"@,
        )
        &&& days >= 1 && goal.total_qty <= 0 ==> r is Err && is_business_err(
            r->Err_0,
            "目标总量必须大于0才能自动拆解"@,
        )
        &&& days >= 1 && goal.total_qty > 0 ==> r is Ok && even_split_tasks(r->Ok_0@, goal, today, days)
    })
}

/// A goal that already has automatically split tasks is not split again:
/// `existing_auto` is the number of such tasks.
pub fn ensure_not_split(existing_auto: i64) -> (r: AppResult<()>)
    ensures
        existing_auto > 0 ==> r is Err && is_business_err(r->Err_0, "该目标已有自动拆解任务，请先删除旧任务再重新拆解"@),
        existing_auto <= 0 ==> r is Ok,
{
    if existing_auto > 0 {
        Err(AppError::Business(String::from_str("该目标已有自动拆解任务，请先删除旧任务再重新拆解")))
    } else {
        Ok(())
    }
}

/// Splits a goal evenly over the days after `today` up to its deadline.
///
/// The total is divided by the number of days, rounded down to whole units;
/// the units left over go one each to the first days; days that would get
/// nothing get no task. Tasks start tomorrow and end on the deadline.
pub fn split_goal_into_tasks(goal: &Goal, today: i32) -> (r: AppResult<Vec<Task>>)
    requires
        valid_day(today as int),
    ensures
        even_split_outcome(*goal, today as int, r),
{
    let deadline = match deadline_of(goal) {
        Ok(d) => d,
        Err(e) => {
            return Err(e);
        },
    };
    let days: i64 = (deadline as i64) - (today as i64);
    if days < 1 {
        return Err(days_short_error(days));
    }
    let total = goal.total_qty;
    if total <= 0 {
        return Err(AppError::Business(String::from_str("目标总量必须大于0才能自动拆解")));
    }
    let tasks = even_tasks(goal, total, days, today, 1, "天", None);
    Ok(tasks)
}

fn deadline_of(goal: &Goal) -> (r: AppResult<i32>)
    ensures
        goal.deadline is None ==> r is Err && is_param_err(r->Err_0, "目标未设置截止日期，无法拆解"@),
        goal.deadline is Some && spec_parse_ymd(goal.deadline->0@) is Err ==> r is Err && is_param_err(
            r->Err_0,
            "截止日期格式错误: "@ + spec_parse_ymd(goal.deadline->0@)->Err_0,
        ),
        goal.deadline is Some && spec_parse_ymd(goal.deadline->0@) is Ok ==> r is Ok && r->Ok_0 as int
            == spec_parse_ymd(goal.deadline->0@)->Ok_0 && valid_day(r->Ok_0 as int),
{
    let deadline_str = match &goal.deadline {
        Some(s) => s,
        None => {
            return Err(deadline_missing("目标未设置截止日期，无法拆解"));
        },
    };
    match parse_ymd(deadline_str.as_str()) {
        Ok(d) => Ok(d),
        Err(e) => Err(AppError::Param(String::from_str("截止日期格式错误: ").concat(e.as_str()))),
    }
}

/// The tasks of an even split of `goal` over `days` days starting the day
/// after `before_first`.
pub open spec fn even_split_tasks(tasks: Seq<Task>, goal: Goal, before_first: int, days: int) -> bool {
    even_split_tasks_from(tasks, goal, goal.total_qty as int, before_first + 1, days, "天"@, None)
}

/// The tasks of an even split of `total` over `days` days from day `first`:
/// one task for each day with a positive amount, numbered from one.
pub open spec fn even_split_tasks_from(
    tasks: Seq<Task>,
    goal: Goal,
    total: int,
    first: int,
    days: int,
    suffix: Seq<char>,
    est: Option<i64>,
) -> bool {
    &&& tasks.len() == even_count(total, days)
    &&& same_created_at(tasks)
    &&& forall|k: int|
        0 <= k < tasks.len() ==> task_shape(
            #[trigger] tasks[k],
            goal.id@,
            numbered_name(goal.name@, k + 1, suffix),
            goal.unit@,
            first + k,
            even_qty(total, days, k),
            k,
            est,
        )
}

fn even_tasks(
    goal: &Goal,
    total: i64,
    days: i64,
    before_first: i32,
    offset: i64,
    suffix: &str,
    est: Option<i64>,
) -> (tasks: Vec<Task>)
    requires
        total > 0,
        days >= 1,
        0 <= offset <= 1,
        valid_day(before_first as int),
        valid_day(before_first + offset + days - 1),
    ensures
        even_split_tasks_from(tasks@, *goal, total as int, before_first + offset, days as int, suffix@, est),
{
    proof {
        lemma_even_bounds(total as int, days as int);
    }
    let unit_days: i64 = 100 * days;
    let base: i64 = (total / unit_days) * 100;
    let rem: i64 = (total - base * days + 50) / 100;
    assert(base == even_base(total as int, days as int));
    assert(rem == even_remainder(total as int, days as int));
    proof {
        let w = total / unit_days;
        if rem >= 1 {
            assert(total - base * days >= 50);
            assert(base * days >= base) by (nonlinear_arith)
                requires
                    base >= 0,
                    days >= 1,
            ;
            assert(base + 100 <= i64::MAX) by (nonlinear_arith)
                requires
                    base == w * 100,
                    base + 50 <= total,
                    total <= i64::MAX,
            ;
        }
    }
    let now = now_local_ts();
    let mut tasks: Vec<Task> = Vec::new();
    let mut i: i64 = 0;
    while i < days
        invariant
            0 <= i <= days,
            total > 0,
            days >= 1,
            0 <= offset <= 1,
            valid_day(before_first as int),
            valid_day(before_first + offset + days - 1),
            base == even_base(total as int, days as int),
            rem == even_remainder(total as int, days as int),
            0 <= base,
            rem >= 1 ==> base + 100 <= i64::MAX,
            0 <= rem <= days,
            forall|j: int| 0 <= j < days ==> (#[trigger] even_qty(total as int, days as int, j) > 0 <==> j < even_count(total as int, days as int)),
            tasks@.len() == if i <= even_count(total as int, days as int) { i as int } else { even_count(total as int, days as int) },
            forall|a: int| 0 <= a < tasks@.len() ==> (#[trigger] tasks@[a]).created_at == now,
            forall|k: int|
                0 <= k < tasks@.len() ==> task_shape(
                    #[trigger] tasks@[k],
                    goal.id@,
                    numbered_name(goal.name@, k + 1, suffix@),
                    goal.unit@,
                    before_first + offset + k,
                    even_qty(total as int, days as int, k),
                    k,
                    est,
                ),
        decreases days - i,
    {
        let qty: i64 = if i < rem { base + 100 } else { base };
        assert(qty == even_qty(total as int, days as int, i as int));
        if qty <= 0 {
            i = i + 1;
            continue;
        }
        let day: i32 = (before_first as i64 + offset + i) as i32;
        let name = numbered(&goal.name, (i + 1) as u64, suffix);
        let t = make_task(&goal.id, name, &goal.unit, day, qty, i, est, &now);
        tasks.push(t);
        i = i + 1;
    }
    proof {
        assert(tasks@.len() == even_count(total as int, days as int));
        assert(same_created_at(tasks@));
    }
    tasks
}

} // verus!

verus! {

// ------------------------------------------------------------------
// Distribution by a fixed amount per day
// ------------------------------------------------------------------

/// Number of tasks needed to cover `total` with `per` each: `total / per`
/// rounded up.
pub open spec fn cap_count(total: int, per: int) -> int {
    (total + per - 1) / per
}

/// Amount of the task with index `k`: `per`, except for the last, which gets
/// what is left.
pub open spec fn cap_qty(total: int, per: int, k: int) -> int {
    if total - k * per < per {
        total - k * per
    } else {
        per
    }
}

/// Facts on a fixed-amount split of a positive total.
pub proof fn lemma_cap_bounds(total: int, per: int)
    requires
        total > 0,
        per > 0,
    ensures
        1 <= cap_count(total, per) <= total,
        (cap_count(total, per) - 1) * per < total,
        cap_count(total, per) * per >= total,
{
    let n = cap_count(total, per);
    assert(n >= 1 && n <= total) by (nonlinear_arith)
        requires
            total > 0,
            per > 0,
            n == (total + per - 1) / per,
    ;
    assert((n - 1) * per < total && n * per >= total) by (nonlinear_arith)
        requires
            total > 0,
            per > 0,
            n == (total + per - 1) / per,
    ;
}

/// The tasks of a fixed-amount split of `total` with `per` each, one task a
/// day from day `first`, each with estimate `per`.
pub open spec fn cap_split_tasks(tasks: Seq<Task>, goal: Goal, total: int, per: i64, first: int) -> bool {
    &&& tasks.len() == cap_count(total, per as int)
    &&& same_created_at(tasks)
    &&& forall|k: int|
        0 <= k < tasks.len() ==> task_shape(
            #[trigger] tasks[k],
            goal.id@,
            numbered_name(goal.name@, k + 1, "天"@),
            goal.unit@,
            first + k,
            cap_qty(total, per as int, k),
            k,
            Some(per),
        )
}

fn cap_tasks(goal: &Goal, total: i64, per: i64, first: i32) -> (tasks: Vec<Task>)
    requires
        total > 0,
        per > 0,
        valid_day(first as int),
        valid_day(first + cap_count(total as int, per as int) - 1),
    ensures
        cap_split_tasks(tasks@, *goal, total as int, per, first as int),
{
    proof {
        lemma_cap_bounds(total as int, per as int);
    }
    let n: i64 = (total - 1) / per + 1;
    assert(n == cap_count(total as int, per as int)) by (nonlinear_arith)
        requires
            total > 0,
            per > 0,
            n == (total as int - 1) / (per as int) + 1,
    ;
    let now = now_local_ts();
    let mut tasks: Vec<Task> = Vec::new();
    let mut allocated: i64 = 0;
    let mut i: i64 = 0;
    while i < n
        invariant
            0 <= i <= n,
            total > 0,
            per > 0,
            n == cap_count(total as int, per as int),
            (n - 1) * per < total,
            valid_day(first as int),
            valid_day(first + n - 1),
            i < n ==> allocated == i * per,
            i < n ==> allocated < total,
            tasks@.len() == i,
            forall|a: int| 0 <= a < tasks@.len() ==> (#[trigger] tasks@[a]).created_at == now,
            forall|k: int|
                0 <= k < tasks@.len() ==> task_shape(
                    #[trigger] tasks@[k],
                    goal.id@,
                    numbered_name(goal.name@, k + 1, "天"@),
                    goal.unit@,
                    first + k,
                    cap_qty(total as int, per as int, k),
                    k,
                    Some(per),
                ),
        decreases n - i,
    {
        let remaining = total - allocated;
        let qty = if remaining < per { remaining } else { per };
        assert(qty == cap_qty(total as int, per as int, i as int));
        let day: i32 = (first as i64 + i) as i32;
        let name = numbered(&goal.name, (i + 1) as u64, "天");
        let t = make_task(&goal.id, name, &goal.unit, day, qty, i, Some(per), &now);
        tasks.push(t);
        proof {
            if i + 1 < n {
                assert((i + 1) * per <= (n - 1) * per) by (nonlinear_arith)
                    requires
                        i + 1 <= n - 1,
                        per > 0,
                ;
            }
            assert(allocated + per == (i + 1) * per) by (nonlinear_arith)
                requires
                    allocated == i * per,
            ;
            if i + 1 < n {
                assert(qty == per);
            }
        }
        allocated = allocated + qty;
        i = i + 1;
    }
    proof {
        assert(same_created_at(tasks@));
    }
    tasks
}

} // verus!

verus! {

/// The error of a fixed-amount split that needs more days than there are.
pub open spec fn too_many_days_text(per: int, unit: Seq<char>, n: int, days: int) -> Seq<char> {
    "按每日"@ + qty_text(per) + unit + "拆解需要"@ + int_text(n) + "天，但截止日期前仅剩"@ + int_text(days)
        + "天，请调整每日可用时长或截止日期"@
}

/// What `split_by_daily_capacity` gives for `goal` and `today`.
pub open spec fn capacity_split_outcome(goal: Goal, today: int, r: AppResult<Vec<Task>>) -> bool {
    &&& goal.deadline is None ==> r is Err && is_param_err(r->Err_0, "目标未设置截止日期，无法拆解"@)
    &&& goal.deadline is Some && spec_parse_ymd(goal.deadline->0@) is Err ==> r is Err && is_param_err(
        r->Err_0,
        "截止日期格式错误: "@ + spec_parse_ymd(goal.deadline->0@)->Err_0,
    )
    &&& goal.deadline is Some && spec_parse_ymd(goal.deadline->0@) is Ok ==> ({
        let days = spec_parse_ymd(goal.deadline->0@)->Ok_0 - today;
        let total = goal.total_qty as int;
        &&& days < 1 ==> r is Err && is_business_err(
            r->Err_0,
            "截止日期剩余天数不足（"@ + int_text(days) + "天），至少需要留出1天"@,
        )
        &&& days >= 1 && total <= 0 ==> r is Err && is_business_err(r->Err_0, "目标总量必须大于0才能拆解"@)
        &&& days >= 1 && total > 0 && goal.daily_capacity is None ==> r is Err && is_param_err(
            r->Err_0,
            "未设置每日可用时长（daily_capacity），无法按时间预算拆解"@,
        )
        &&& days >= 1 && total > 0 && goal.daily_capacity is Some && goal.daily_capacity->0 <= 0 ==> r is Err
            && is_business_err(r->Err_0, "每日可用时长必须大于0"@)
        &&& days >= 1 && total > 0 && goal.daily_capacity is Some && goal.daily_capacity->0 > 0 ==> ({
            let per = goal.daily_capacity->0;
            let n = cap_count(total, per as int);
            &&& n > days ==> r is Err && is_business_err(r->Err_0, too_many_days_text(per as int, goal.unit@, n, days))
            &&& n <= days ==> r is Ok && cap_split_tasks(r->Ok_0@, goal, total, per, today + 1)
        })
    })
}

/// Splits a goal by its daily capacity: each day from tomorrow gets the
/// capacity until the total is covered (the last day gets what is left);
/// the deadline must leave enough days.
pub fn split_by_daily_capacity(goal: &Goal, today: i32) -> (r: AppResult<Vec<Task>>)
    requires
        valid_day(today as int),
    ensures
        capacity_split_outcome(*goal, today as int, r),
{
    let deadline = match deadline_of(goal) {
        Ok(d) => d,
        Err(e) => {
            return Err(e);
        },
    };
    let days: i64 = (deadline as i64) - (today as i64);
    if days < 1 {
        return Err(days_short_error(days));
    }
    let total = goal.total_qty;
    if total <= 0 {
        return Err(AppError::Business(String::from_str("目标总量必须大于0才能拆解")));
    }
    let per = match goal.daily_capacity {
        Some(c) => c,
        None => {
            return Err(
                AppError::Param(String::from_str("未设置每日可用时长（daily_capacity），无法按时间预算拆解")),
            );
        },
    };
    if per <= 0 {
        return Err(AppError::Business(String::from_str("每日可用时长必须大于0")));
    }
    proof {
        lemma_cap_bounds(total as int, per as int);
    }
    let n: i64 = (total - 1) / per + 1;
    assert(n == cap_count(total as int, per as int)) by (nonlinear_arith)
        requires
            total > 0,
            per > 0,
            n == (total as int - 1) / (per as int) + 1,
    ;
    if n > days {
        let msg = String::from_str("按每日").concat(qty_to_text(per).as_str()).concat(goal.unit.as_str()).concat(
            "拆解需要",
        ).concat(int_to_text(n).as_str()).concat("天，但截止日期前仅剩").concat(int_to_text(days).as_str()).concat(
            "天，请调整每日可用时长或截止日期",
        );
        return Err(AppError::Business(msg));
    }
    let tasks = cap_tasks(goal, total, per, today + 1);
    Ok(tasks)
}

/// The error of a fixed-amount split that needs more tasks than the range has days.
pub open spec fn too_many_tasks_text(per: int, unit: Seq<char>, n: int, span: int) -> Seq<char> {
    "按每日"@ + qty_text(per) + unit + "拆解需要"@ + int_text(n) + "个任务，但日期范围内仅有"@ + int_text(span)
        + "天，请调整每日数量或日期范围"@
}

/// What `split_by_date_range` gives.
pub open spec fn range_split_outcome(
    goal: Goal,
    start: int,
    end: int,
    per_day_qty: Option<i64>,
    r: AppResult<Vec<Task>>,
) -> bool {
    let total = goal.total_qty as int;
    let span = end - start + 1;
    &&& end < start ==> r is Err && is_param_err(r->Err_0, "结束日期不能早于起始日期"@)
    &&& end >= start && total <= 0 ==> r is Err && is_business_err(r->Err_0, "目标总量必须大于0才能拆解"@)
    &&& end >= start && total > 0 && per_day_qty is Some && per_day_qty->0 > 0 ==> ({
        let per = per_day_qty->0;
        let n = cap_count(total, per as int);
        &&& n > span ==> r is Err && is_business_err(r->Err_0, too_many_tasks_text(per as int, goal.unit@, n, span))
        &&& n <= span ==> r is Ok && cap_split_tasks(r->Ok_0@, goal, total, per, start)
    })
    &&& end >= start && total > 0 && !(per_day_qty is Some && per_day_qty->0 > 0) ==> r is Ok
        && even_split_tasks_from(r->Ok_0@, goal, total, start, span, "天"@, None)
}

/// Splits a goal over the days from `start` to `end` (both included).
///
/// With a positive amount per day, one task a day gets that amount until the
/// total is covered (the range must have enough days); otherwise the total is
/// spread evenly over the range as `split_goal_into_tasks` does. `today` is
/// not consulted.
pub fn split_by_date_range(
    goal: &Goal,
    start: i32,
    end: i32,
    per_day_qty: Option<i64>,
    today: i32,
) -> (r: AppResult<Vec<Task>>)
    requires
        valid_day(start as int),
        valid_day(end as int),
    ensures
        range_split_outcome(*goal, start as int, end as int, per_day_qty, r),
{
    if end < start {
        return Err(AppError::Param(String::from_str("结束日期不能早于起始日期")));
    }
    let total = goal.total_qty;
    if total <= 0 {
        return Err(AppError::Business(String::from_str("目标总量必须大于0才能拆解")));
    }
    let span: i64 = (end as i64) - (start as i64) + 1;
    let _ = today;
    match per_day_qty {
        Some(per) if per > 0 => {
            proof {
                lemma_cap_bounds(total as int, per as int);
            }
            let n: i64 = (total - 1) / per + 1;
            assert(n == cap_count(total as int, per as int)) by (nonlinear_arith)
                requires
                    total > 0,
                    per > 0,
                    n == (total as int - 1) / (per as int) + 1,
            ;
            if n > span {
                let msg = String::from_str("按每日").concat(qty_to_text(per).as_str()).concat(
                    goal.unit.as_str(),
                ).concat("拆解需要").concat(int_to_text(n).as_str()).concat("个任务，但日期范围内仅有").concat(
                    int_to_text(span).as_str(),
                ).concat("天，请调整每日数量或日期范围");
                return Err(AppError::Business(msg));
            }
            Ok(cap_tasks(goal, total, per, start))
        },
        _ => { Ok(even_tasks(goal, total, span, start, 0, "天", None)) },
    }
}

} // verus!

verus! {

/// The goal with the split input's overrides applied (total, deadline, capacity).
pub open spec fn effective_goal(input: SmartSplitInput, goal: Goal) -> Goal {
    Goal {
        total_qty: if input.total_qty is Some { input.total_qty->0 } else { goal.total_qty },
        deadline: if input.deadline is Some { input.deadline } else { goal.deadline },
        daily_capacity: if input.daily_capacity is Some { input.daily_capacity } else { goal.daily_capacity },
        ..goal
    }
}

/// What `smart_split` gives.
pub open spec fn smart_split_outcome(input: SmartSplitInput, goal: Goal, today: int, r: AppResult<Vec<Task>>) -> bool {
    let eff = effective_goal(input, goal);
    let s = input.strategy@;
    &&& s == "by_deadline"@ ==> {
        &&& eff.total_qty <= 0 ==> r is Err && is_business_err(r->Err_0, "目标总量必须大于0才能拆解"@)
        &&& eff.total_qty > 0 ==> even_split_outcome(eff, today, r)
    }
    &&& s == "by_capacity"@ ==> {
        &&& eff.total_qty <= 0 ==> r is Err && is_business_err(r->Err_0, "目标总量必须大于0才能拆解"@)
        &&& eff.total_qty > 0 ==> capacity_split_outcome(eff, today, r)
    }
    &&& s == "by_date_range"@ ==> {
        &&& input.start_date is None ==> r is Err && is_param_err(r->Err_0, "自定义日期范围策略必须指定起始日期"@)
        &&& input.start_date is Some && input.end_date is None ==> r is Err && is_param_err(
            r->Err_0,
            "自定义日期范围策略必须指定结束日期"@,
        )
        &&& input.start_date is Some && input.end_date is Some ==> {
            let ps = spec_parse_ymd(input.start_date->0@);
            let pe = spec_parse_ymd(input.end_date->0@);
            &&& ps is Err ==> r is Err && is_param_err(r->Err_0, "起始日期格式错误: "@ + ps->Err_0)
            &&& ps is Ok && pe is Err ==> r is Err && is_param_err(r->Err_0, "结束日期格式错误: "@ + pe->Err_0)
            &&& ps is Ok && pe is Ok ==> range_split_outcome(eff, ps->Ok_0, pe->Ok_0, input.per_day_qty, r)
        }
    }
    &&& (s != "by_deadline"@ && s != "by_capacity"@ && s != "by_date_range"@) ==> r is Err && is_param_err(
        r->Err_0,
        "未知的拆解策略: "@ + s + "（支持: by_deadline | by_capacity | by_date_range）"@,
    )
}

proof fn lemma_strategies_distinct()
    ensures
        "by_deadline"@ != "by_capacity"@,
        "by_deadline"@ != "by_date_range"@,
        "by_capacity"@ != "by_date_range"@,
{
    reveal_strlit("by_deadline");
    reveal_strlit("by_capacity");
    reveal_strlit("by_date_range");
    assert("by_deadline"@[3] != "by_capacity"@[3]);
    assert("by_deadline"@.len() != "by_date_range"@.len());
    assert("by_capacity"@.len() != "by_date_range"@.len());
}

/// The combined split: applies the input's overrides to a copy of the goal
/// (the goal itself is left alone) and dispatches on the strategy to the even
/// split, the capacity split or the date-range split.
pub fn smart_split(input: &SmartSplitInput, goal: &Goal, today: i32) -> (r: AppResult<Vec<Task>>)
    requires
        valid_day(today as int),
    ensures
        smart_split_outcome(*input, *goal, today as int, r),
{
    let mut eff = goal.copy();
    if let Some(q) = input.total_qty {
        eff.total_qty = q;
    }
    if let Some(d) = &input.deadline {
        eff.deadline = Some(d.clone());
    }
    if let Some(c) = input.daily_capacity {
        eff.daily_capacity = Some(c);
    }
    assert(eff == effective_goal(*input, *goal));
    proof {
        lemma_strategies_distinct();
    }
    let strategy = input.strategy.as_str();
    if str_eq(strategy, "by_deadline") {
        if eff.total_qty <= 0 {
            return Err(AppError::Business(String::from_str("目标总量必须大于0才能拆解")));
        }
        split_goal_into_tasks(&eff, today)
    } else if str_eq(strategy, "by_capacity") {
        if eff.total_qty <= 0 {
            return Err(AppError::Business(String::from_str("目标总量必须大于0才能拆解")));
        }
        split_by_daily_capacity(&eff, today)
    } else if str_eq(strategy, "by_date_range") {
        let start_str = match &input.start_date {
            Some(s) => s,
            None => {
                return Err(AppError::Param(String::from_str("自定义日期范围策略必须指定起始日期")));
            },
        };
        let end_str = match &input.end_date {
            Some(s) => s,
            None => {
                return Err(AppError::Param(String::from_str("自定义日期范围策略必须指定结束日期")));
            },
        };
        let start = match parse_ymd(start_str.as_str()) {
            Ok(d) => d,
            Err(e) => {
                return Err(AppError::Param(String::from_str("起始日期格式错误: ").concat(e.as_str())));
            },
        };
        let end = match parse_ymd(end_str.as_str()) {
            Ok(d) => d,
            Err(e) => {
                return Err(AppError::Param(String::from_str("结束日期格式错误: ").concat(e.as_str())));
            },
        };
        split_by_date_range(&eff, start, end, input.per_day_qty, today)
    } else {
        Err(
            AppError::Param(
                String::from_str("未知的拆解策略: ").concat(strategy).concat(
                    "（支持: by_deadline | by_capacity | by_date_range）",
                ),
            ),
        )
    }
}

} // verus!

verus! {

// ------------------------------------------------------------------
// Repeated tasks
// ------------------------------------------------------------------

/// Whether a repeated split puts a task on `day`: always for a single task,
/// on the listed weekdays for `weekly`, on the listed days of the month for
/// `monthly`, and every day otherwise.
pub open spec fn repeat_hit(input: RepeatSplitInput, freq: Seq<char>, single: bool, day: int) -> bool {
    if single {
        true
    } else if freq == "weekly"@ {
        input.weekdays is Some && input.weekdays->0@.contains(weekday_of(day) as u8)
    } else if freq == "monthly"@ {
        input.month_days is Some && input.month_days->0@.contains(spec_day_of_month(day) as u8)
    } else {
        true
    }
}

/// The days among the `n` days from `start` on which a repeated split puts a
/// task, in order.
pub open spec fn repeat_days(input: RepeatSplitInput, freq: Seq<char>, single: bool, start: int, n: nat) -> Seq<int>
    decreases n,
{
    if n == 0 {
        Seq::empty()
    } else {
        let prev = repeat_days(input, freq, single, start, (n - 1) as nat);
        if repeat_hit(input, freq, single, start + n - 1) {
            prev.push(start + n - 1)
        } else {
            prev
        }
    }
}

/// The name of the k-th (from one) task of a repeated split.
pub open spec fn repeat_name(input: RepeatSplitInput, single: bool, k: int) -> Seq<char> {
    if single {
        input.name@
    } else {
        numbered_name(input.name@, k, "次"@)
    }
}

/// The text a repeat frequency is compared as: the given one, or `daily`,
/// in lower case.
pub open spec fn repeat_freq(input: RepeatSplitInput) -> Seq<char> {
    spec_to_lowercase(if input.frequency is Some { input.frequency->0@ } else { "daily"@ })
}

/// What `split_repeat_tasks` gives once both dates parsed.
pub open spec fn repeat_tasks_ok(goal: Goal, input: RepeatSplitInput, start: int, end: int, tasks: Seq<Task>) -> bool {
    let freq = repeat_freq(input);
    let single = start == end;
    let days = repeat_days(input, freq, single, start, (end - start + 1) as nat);
    let qty = if input.plan_qty is Some { input.plan_qty->0 as int } else { QTY_SCALE as int };
    let unit = if input.unit is Some { input.unit->0@ } else { Seq::<char>::empty() };
    &&& tasks.len() == days.len()
    &&& same_created_at(tasks)
    &&& forall|k: int|
        0 <= k < tasks.len() ==> task_shape(
            #[trigger] tasks[k],
            goal.id@,
            repeat_name(input, single, k + 1),
            unit,
            days[k],
            qty,
            k,
            None,
        )
}

/// What `split_repeat_tasks` gives.
pub open spec fn repeat_split_outcome(goal: Goal, input: RepeatSplitInput, r: AppResult<Vec<Task>>) -> bool {
    let ps = spec_parse_ymd(input.start_date@);
    let freq = repeat_freq(input);
    &&& spec_trim(input.name@).len() == 0 ==> r is Err && is_param_err(r->Err_0, "任务名称不能为空"@)
    &&& spec_trim(input.name@).len() != 0 && ps is Err ==> r is Err && is_param_err(
        r->Err_0,
        "起始日期格式错误: "@ + ps->Err_0,
    )
    &&& spec_trim(input.name@).len() != 0 && ps is Ok ==> {
        let start = ps->Ok_0;
        &&& input.end_date is Some && spec_parse_ymd(input.end_date->0@) is Err ==> r is Err && is_param_err(
            r->Err_0,
            "结束日期格式错误: "@ + spec_parse_ymd(input.end_date->0@)->Err_0,
        )
        &&& input.end_date is Some && spec_parse_ymd(input.end_date->0@) is Ok && spec_parse_ymd(
            input.end_date->0@,
        )->Ok_0 < start ==> r is Err && is_param_err(r->Err_0, "结束日期不能早于起始日期"@)
        &&& (input.end_date is None || (spec_parse_ymd(input.end_date->0@) is Ok && spec_parse_ymd(
            input.end_date->0@,
        )->Ok_0 >= start)) ==> {
            let end = if input.end_date is Some { spec_parse_ymd(input.end_date->0@)->Ok_0 } else { start };
            let single = start == end;
            let weekly_missing = freq == "weekly"@ && (input.weekdays is None || input.weekdays->0@.len() == 0);
            let monthly_missing = freq == "monthly"@ && (input.month_days is None || input.month_days->0@.len()
                == 0);
            &&& !single && weekly_missing ==> r is Err && is_param_err(r->Err_0, "weekly 频率必须指定至少一个周几"@)
            &&& !single && monthly_missing ==> r is Err && is_param_err(
                r->Err_0,
                "monthly 频率必须指定至少一个日期"@,
            )
            &&& (single || !(weekly_missing || monthly_missing)) ==> r is Ok && repeat_tasks_ok(
                goal,
                input,
                start,
                end,
                r->Ok_0@,
            )
        }
    }
}

fn contains_u8(v: &Option<Vec<u8>>, x: u8) -> (r: bool)
    ensures
        r == (v is Some && v->0@.contains(x)),
{
    match v {
        Some(list) => {
            let mut i: usize = 0;
            while i < list.len()
                invariant
                    i <= list@.len(),
                    v is Some && v->0@ == list@,
                    forall|j: int| 0 <= j < i ==> list@[j] != x,
                decreases list@.len() - i,
            {
                if list[i] == x {
                    assert(list@[i as int] == x);
                    assert(v->0@.contains(x));
                    return true;
                }
                i = i + 1;
            }
            false
        },
        None => false,
    }
}

fn is_empty_list(v: &Option<Vec<u8>>) -> (r: bool)
    ensures
        r == (v is None || v->0@.len() == 0),
{
    match v {
        Some(list) => list.len() == 0,
        None => true,
    }
}

/// Repeated tasks of a fixed amount: a single task when there is no end
/// date or it equals the start date, otherwise one task on each day of the
/// range that the frequency selects (every day, listed weekdays, or listed
/// days of the month).
pub fn split_repeat_tasks(goal: &Goal, input: &RepeatSplitInput, _today: i32) -> (r: AppResult<Vec<Task>>)
    ensures
        repeat_split_outcome(*goal, *input, r),
{
    if trim_str(input.name.as_str()).unicode_len() == 0 {
        return Err(AppError::Param(String::from_str("任务名称不能为空")));
    }
    let start = match parse_ymd(input.start_date.as_str()) {
        Ok(d) => d,
        Err(e) => {
            return Err(AppError::Param(String::from_str("起始日期格式错误: ").concat(e.as_str())));
        },
    };
    let plan_qty: i64 = match input.plan_qty {
        Some(q) => q,
        None => QTY_SCALE,
    };
    let unit: String = match &input.unit {
        Some(u) => u.clone(),
        None => String::new(),
    };
    let now = now_local_ts();
    let end = match &input.end_date {
        Some(end_str) => {
            let e = match parse_ymd(end_str.as_str()) {
                Ok(d) => d,
                Err(err) => {
                    return Err(AppError::Param(String::from_str("结束日期格式错误: ").concat(err.as_str())));
                },
            };
            if e < start {
                return Err(AppError::Param(String::from_str("结束日期不能早于起始日期")));
            }
            e
        },
        None => start,
    };
    let frequency = match &input.frequency {
        Some(f) => to_lowercase(f.as_str()),
        None => to_lowercase("daily"),
    };
    let single = start == end;
    proof {
        reveal_strlit("weekly");
        reveal_strlit("monthly");
        assert("weekly"@.len() != "monthly"@.len());
    }
    let weekly = str_eq(frequency.as_str(), "weekly");
    let monthly = str_eq(frequency.as_str(), "monthly");
    if !single {
        if weekly && is_empty_list(&input.weekdays) {
            return Err(AppError::Param(String::from_str("weekly 频率必须指定至少一个周几")));
        }
        if monthly && is_empty_list(&input.month_days) {
            return Err(AppError::Param(String::from_str("monthly 频率必须指定至少一个日期")));
        }
    }
    let ghost freq = frequency@;
    let n: i64 = (end as i64) - (start as i64) + 1;
    let mut tasks: Vec<Task> = Vec::new();
    let mut seq_index: i64 = 0;
    let mut i: i64 = 0;
    while i < n
        invariant
            0 <= i <= n,
            n == end - start + 1,
            valid_day(start as int),
            valid_day(end as int),
            start <= end,
            freq == frequency@,
            weekly == (freq == "weekly"@),
            monthly == (freq == "monthly"@),
            single == (start == end),
            seq_index == tasks@.len(),
            tasks@.len() == repeat_days(*input, freq, single, start as int, i as nat).len(),
            seq_index <= i,
            forall|a: int| 0 <= a < tasks@.len() ==> (#[trigger] tasks@[a]).created_at == now,
            forall|k: int|
                0 <= k < tasks@.len() ==> task_shape(
                    #[trigger] tasks@[k],
                    goal.id@,
                    repeat_name(*input, single, k + 1),
                    unit@,
                    repeat_days(*input, freq, single, start as int, i as nat)[k],
                    plan_qty as int,
                    k,
                    None,
                ),
        decreases n - i,
    {
        let cursor: i32 = (start as i64 + i) as i32;
        let hit: bool = if single {
            true
        } else if weekly {
            contains_u8(&input.weekdays, weekday_from_sunday(cursor))
        } else if monthly {
            contains_u8(&input.month_days, day_of_month(cursor))
        } else {
            true
        };
        assert(hit == repeat_hit(*input, freq, single, cursor as int));
        let ghost before = repeat_days(*input, freq, single, start as int, i as nat);
        assert(repeat_days(*input, freq, single, start as int, (i + 1) as nat) == if hit {
            before.push(cursor as int)
        } else {
            before
        });
        if hit {
            seq_index = seq_index + 1;
            let name = if single {
                input.name.clone()
            } else {
                numbered(&input.name, seq_index as u64, "次")
            };
            let t = make_task(&goal.id, name, &unit, cursor, plan_qty, seq_index - 1, None, &now);
            tasks.push(t);
        }
        i = i + 1;
    }
    proof {
        assert(same_created_at(tasks@));
    }
    Ok(tasks)
}

} // verus!
