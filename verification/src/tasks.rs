//! Rules of task changes: creating, completing, back-filling, skipping,
//! updating, moving and deleting tasks.

use vstd::prelude::*;
use vstd::string::*;

use crate::error::{is_business_err, is_not_found_err, is_param_err, not_found, not_found_text, AppError, AppResult};
use crate::dependency::{detect_cycle, reaches};
use crate::models::{
    CompleteTaskInput, CreateTaskInput, DeleteTaskResult, DeleteTasksBatchResult, Goal, MoveTaskInput, SetTaskDependencyInput, Task,
    TaskDependency, TodayTask, UpdateTaskInput,
};
use crate::textorder::{text_less, text_lt};
use crate::progress::{goal_index, goal_ids_distinct, find_goal};
use crate::util::{copy_opt_string, new_uuid, now_local_ts, qty_text, qty_to_text, spec_trim, str_eq, trim_str};

verus! {

/// The task `new` is `old` with only its done amount and status changed.
pub open spec fn task_progressed(old: Task, new: Task, actual: int, status: Seq<char>) -> bool {
    &&& new.id == old.id
    &&& new.goal_id == old.goal_id
    &&& new.stage_id == old.stage_id
    &&& new.parent_id == old.parent_id
    &&& new.path == old.path
    &&& new.name == old.name
    &&& new.plan_date == old.plan_date
    &&& new.overdue_date == old.overdue_date
    &&& new.plan_qty == old.plan_qty
    &&& new.actual_qty == actual
    &&& new.unit == old.unit
    &&& new.status@ == status
    &&& new.is_manual == old.is_manual
    &&& new.source == old.source
    &&& new.sort_order == old.sort_order
    &&& new.created_at == old.created_at
    &&& new.estimated_hours == old.estimated_hours
}

/// The status after completing `actual` of `plan`.
pub open spec fn completed_status(actual: int, plan: int) -> Seq<char> {
    if actual >= plan {
        "done"@
    } else if actual > 0 {
        "partial"@
    } else {
        "pending"@
    }
}

/// The status after back-filling `actual` of `plan`.
pub open spec fn backfilled_status(actual: int, plan: int) -> Seq<char> {
    if actual >= plan && plan > 0 {
        "done"@
    } else if actual > 0 {
        "partial"@
    } else {
        "pending"@
    }
}

/// What `complete_task` gives.
pub open spec fn complete_outcome(task: Option<Task>, input: CompleteTaskInput, blocked: bool, r: AppResult<Task>) -> bool {
    &&& input.actual_qty < 0 ==> r is Err && is_param_err(r->Err_0, "实际完成量不能为负"@)
    &&& input.actual_qty >= 0 && task is None ==> r is Err && is_not_found_err(
        r->Err_0,
        not_found_text("任务"@, input.task_id@),
    )
    &&& input.actual_qty >= 0 && task is Some ==> ({
        let t = task->0;
        &&& t.status@ == "done"@ ==> r is Err && is_business_err(r->Err_0, "任务已完成，不能重复标记"@)
        &&& t.status@ != "done"@ && blocked ==> r is Err && is_business_err(r->Err_0, "前置任务未完成，暂不能标记完成"@)
        &&& t.status@ != "done"@ && !blocked && input.actual_qty > t.plan_qty ==> r is Err && is_business_err(
            r->Err_0,
            "实际完成量("@ + qty_text(input.actual_qty as int) + ")不能超过计划数量("@ + qty_text(t.plan_qty as int)
                + ")"@,
        )
        &&& t.status@ != "done"@ && !blocked && input.actual_qty <= t.plan_qty ==> r is Ok && task_progressed(
            t,
            r->Ok_0,
            input.actual_qty as int,
            completed_status(input.actual_qty as int, t.plan_qty as int),
        )
    })
}

/// What `backfill_task` gives.
pub open spec fn backfill_outcome(task: Option<Task>, input: CompleteTaskInput, blocked: bool, r: AppResult<Task>) -> bool {
    &&& input.actual_qty < 0 ==> r is Err && is_param_err(r->Err_0, "实际完成量不能为负"@)
    &&& input.actual_qty >= 0 && task is None ==> r is Err && is_not_found_err(
        r->Err_0,
        not_found_text("任务"@, input.task_id@),
    )
    &&& input.actual_qty >= 0 && task is Some ==> ({
        let t = task->0;
        let repeat = t.status@ == "done"@ && input.actual_qty <= t.actual_qty;
        &&& repeat ==> r is Err && is_business_err(r->Err_0, "任务已完成，不能重复补录"@)
        &&& !repeat && blocked ==> r is Err && is_business_err(r->Err_0, "前置任务未完成，暂不能补完成"@)
        &&& !repeat && !blocked ==> r is Ok && task_progressed(
            t,
            r->Ok_0,
            input.actual_qty as int,
            backfilled_status(input.actual_qty as int, t.plan_qty as int),
        )
    })
}

fn with_progress(t: &Task, actual: i64, status: &str) -> (r: Task)
    ensures
        task_progressed(*t, r, actual as int, status@),
{
    let mut r = t.copy();
    r.actual_qty = actual;
    r.status = String::from_str(status);
    r
}

fn status_text(actual: i64, plan: i64, backfill: bool) -> (r: &'static str)
    ensures
        !backfill ==> r@ == completed_status(actual as int, plan as int),
        backfill ==> r@ == backfilled_status(actual as int, plan as int),
{
    proof {
        reveal_strlit("done");
        reveal_strlit("partial");
        reveal_strlit("pending");
    }
    if actual >= plan && (!backfill || plan > 0) {
        "done"
    } else if actual > 0 {
        "partial"
    } else {
        "pending"
    }
}

/// Completes `task` (possibly in part) with the amount `input.actual_qty`.
///
/// A negative amount, a missing task, a task already done, a task with an
/// unfinished prerequisite (`blocked`) and an amount above the plan are
/// refused, in that order. The task becomes `done` when the amount reaches
/// the plan, `partial` when it is positive, `pending` otherwise.
pub fn complete_task(task: &Option<Task>, input: &CompleteTaskInput, blocked: bool) -> (r: AppResult<Task>)
    ensures
        complete_outcome(*task, *input, blocked, r),
{
    if input.actual_qty < 0 {
        return Err(AppError::Param(String::from_str("实际完成量不能为负")));
    }
    let t = match task {
        Some(t) => t,
        None => {
            return Err(not_found("任务", input.task_id.as_str()));
        },
    };
    if str_eq(t.status.as_str(), "done") {
        return Err(AppError::Business(String::from_str("任务已完成，不能重复标记")));
    }
    if blocked {
        return Err(AppError::Business(String::from_str("前置任务未完成，暂不能标记完成")));
    }
    if input.actual_qty > t.plan_qty {
        return Err(
            AppError::Business(
                String::from_str("实际完成量(").concat(qty_to_text(input.actual_qty).as_str()).concat(
                    ")不能超过计划数量(",
                ).concat(qty_to_text(t.plan_qty).as_str()).concat(")"),
            ),
        );
    }
    Ok(with_progress(t, input.actual_qty, status_text(input.actual_qty, t.plan_qty, false)))
}

/// Back-fills the done amount of a past task (a skipped one too).
///
/// A negative amount, a missing task, a done task whose amount would not
/// grow, and a task with an unfinished prerequisite are refused, in that
/// order. The amount may exceed the plan. The task becomes `done` when the
/// amount reaches a positive plan, `partial` when it is positive, `pending`
/// otherwise.
pub fn backfill_task(task: &Option<Task>, input: &CompleteTaskInput, blocked: bool) -> (r: AppResult<Task>)
    ensures
        backfill_outcome(*task, *input, blocked, r),
{
    if input.actual_qty < 0 {
        return Err(AppError::Param(String::from_str("实际完成量不能为负")));
    }
    let t = match task {
        Some(t) => t,
        None => {
            return Err(not_found("任务", input.task_id.as_str()));
        },
    };
    if str_eq(t.status.as_str(), "done") && input.actual_qty <= t.actual_qty {
        return Err(AppError::Business(String::from_str("任务已完成，不能重复补录")));
    }
    if blocked {
        return Err(AppError::Business(String::from_str("前置任务未完成，暂不能补完成")));
    }
    Ok(with_progress(t, input.actual_qty, status_text(input.actual_qty, t.plan_qty, true)))
}

/// Marks a task skipped; a missing task is an error.
pub fn skip_task(task: &Option<Task>, task_id: &str) -> (r: AppResult<Task>)
    ensures
        task is None ==> r is Err && is_not_found_err(r->Err_0, not_found_text("任务"@, task_id@)),
        task is Some ==> r is Ok && task_progressed(task->0, r->Ok_0, task->0.actual_qty as int, "skipped"@),
{
    match task {
        None => Err(not_found("任务", task_id)),
        Some(t) => Ok(with_progress(t, t.actual_qty, "skipped")),
    }
}

/// A task created by hand: pending, nothing done, set by hand, first in its
/// goal; the amount defaults to one unit.
pub fn create_task(input: &CreateTaskInput) -> (t: Task)
    ensures
        t.id@.len() == 36,
        t.goal_id == input.goal_id,
        t.stage_id == input.stage_id,
        t.parent_id == Some(input.goal_id),
        t.path@ == "/"@ + input.goal_id@ + "/"@ + t.id@,
        t.name == input.name,
        t.plan_date == input.plan_date,
        t.overdue_date is None,
        t.plan_qty == match input.plan_qty {
            Some(q) => q,
            None => 100,
        },
        t.actual_qty == 0,
        t.unit@ == match input.unit {
            Some(u) => u@,
            None => Seq::<char>::empty(),
        },
        t.status@ == "pending"@,
        t.is_manual == 1,
        t.source@ == "manual"@,
        t.sort_order == 0,
        t.estimated_hours is None,
{
    let id = new_uuid();
    let path = String::from_str("/").concat(input.goal_id.as_str()).concat("/").concat(id.as_str());
    Task {
        id,
        goal_id: input.goal_id.clone(),
        stage_id: copy_opt_string(&input.stage_id),
        parent_id: Some(input.goal_id.clone()),
        path,
        name: input.name.clone(),
        plan_date: copy_opt_string(&input.plan_date),
        overdue_date: None,
        plan_qty: match input.plan_qty {
            Some(q) => q,
            None => 100,
        },
        actual_qty: 0,
        unit: match &input.unit {
            Some(u) => u.clone(),
            None => String::new(),
        },
        status: String::from_str("pending"),
        is_manual: 1,
        source: String::from_str("manual"),
        sort_order: 0,
        created_at: now_local_ts(),
        estimated_hours: None,
    }
}

/// Sets the planned amount of a task by hand (kept by re-planning); a
/// negative amount is refused.
pub fn update_task_plan_qty(task: &Task, plan_qty: i64) -> (r: AppResult<Task>)
    ensures
        plan_qty < 0 ==> r is Err && is_param_err(r->Err_0, "计划数量不能为负"@),
        plan_qty >= 0 ==> r is Ok && r->Ok_0 == (Task { plan_qty: plan_qty, is_manual: 1, ..*task }),
{
    if plan_qty < 0 {
        return Err(AppError::Param(String::from_str("计划数量不能为负")));
    }
    let mut r = task.copy();
    r.plan_qty = plan_qty;
    r.is_manual = 1;
    Ok(r)
}

/// The task after the update `input`: a given name, planned day (the empty
/// text clears it, and the overdue day is cleared with it) or planned amount
/// replaces the task's own; a new amount marks the task as set by hand, and
/// a done amount above it is cut down to it, the status following.
pub open spec fn updated_task(t: Task, input: UpdateTaskInput) -> Task {
    let cut = input.plan_qty is Some && t.actual_qty > input.plan_qty->0;
    Task {
        name: match input.name {
            Some(n) => n,
            None => t.name,
        },
        plan_date: match input.plan_date {
            Some(d) => if d@.len() == 0 {
                None
            } else {
                Some(d)
            },
            None => t.plan_date,
        },
        overdue_date: if input.plan_date is Some {
            None
        } else {
            t.overdue_date
        },
        plan_qty: match input.plan_qty {
            Some(q) => q,
            None => t.plan_qty,
        },
        is_manual: if input.plan_qty is Some {
            1
        } else {
            t.is_manual
        },
        actual_qty: if cut {
            input.plan_qty->0
        } else {
            t.actual_qty
        },
        ..t
    }
}

/// The status of a task after the update `input`.
pub open spec fn updated_status(t: Task, input: UpdateTaskInput) -> Seq<char> {
    if input.plan_qty is Some && t.actual_qty > input.plan_qty->0 {
        backfilled_status(t.actual_qty as int, input.plan_qty->0 as int)
    } else {
        t.status@
    }
}

/// Updates the name, planned day or planned amount of a task.
///
/// A missing task, a blank name, a negative amount and an update without any
/// of the three are refused, in that order.
pub fn update_task(task: &Option<Task>, input: &UpdateTaskInput) -> (r: AppResult<Task>)
    ensures
        task is None ==> r is Err && is_not_found_err(r->Err_0, not_found_text("任务"@, input.task_id@)),
        task is Some ==> ({
            let t = task->0;
            let blank = input.name is Some && spec_trim(input.name->0@).len() == 0;
            let negative = input.plan_qty is Some && input.plan_qty->0 < 0;
            let nothing = input.name is None && input.plan_date is None && input.plan_qty is None;
            &&& blank ==> r is Err && is_param_err(r->Err_0, "任务名称不能为空"@)
            &&& !blank && negative ==> r is Err && is_param_err(r->Err_0, "计划数量不能为负"@)
            &&& !blank && !negative && nothing ==> r is Err && is_param_err(r->Err_0, "未提供任何更新字段"@)
            &&& !blank && !negative && !nothing ==> r is Ok && r->Ok_0.status@ == updated_status(t, *input) && r->Ok_0
                == (Task { status: r->Ok_0.status, ..updated_task(t, *input) })
        }),
{
    let t = match task {
        Some(t) => t,
        None => {
            return Err(not_found("任务", input.task_id.as_str()));
        },
    };
    if let Some(name) = &input.name {
        if trim_str(name.as_str()).unicode_len() == 0 {
            return Err(AppError::Param(String::from_str("任务名称不能为空")));
        }
    }
    if let Some(q) = input.plan_qty {
        if q < 0 {
            return Err(AppError::Param(String::from_str("计划数量不能为负")));
        }
    }
    if input.name.is_none() && input.plan_date.is_none() && input.plan_qty.is_none() {
        return Err(AppError::Param(String::from_str("未提供任何更新字段")));
    }
    let mut r = t.copy();
    if let Some(name) = &input.name {
        r.name = name.clone();
    }
    if let Some(d) = &input.plan_date {
        r.plan_date = if d.unicode_len() == 0 {
            None
        } else {
            Some(d.clone())
        };
        r.overdue_date = None;
    }
    if let Some(q) = input.plan_qty {
        r.plan_qty = q;
        r.is_manual = 1;
        if t.actual_qty > q {
            r.actual_qty = q;
            r.status = String::from_str(status_text(t.actual_qty, q, true));
        }
    }
    Ok(r)
}

/// The position of the task with id `id`, if there is one.
pub open spec fn task_index(tasks: Seq<Task>, id: Seq<char>) -> Option<int> {
    if exists|j: int| 0 <= j < tasks.len() && #[trigger] tasks[j].id@ == id {
        Some(choose|j: int| 0 <= j < tasks.len() && #[trigger] tasks[j].id@ == id)
    } else {
        None
    }
}

pub(crate) fn find_task_by_id(tasks: &Vec<Task>, id: &String) -> (r: Option<usize>)
    requires
        crate::dependency::ids_distinct(tasks@),
    ensures
        r is Some ==> r->0 < tasks@.len() && task_index(tasks@, id@) == Some(r->0 as int),
        r is None ==> task_index(tasks@, id@) is None,
{
    let mut k: usize = 0;
    while k < tasks.len()
        invariant
            k <= tasks@.len(),
            crate::dependency::ids_distinct(tasks@),
            forall|a: int| 0 <= a < k ==> #[trigger] tasks@[a].id@ != id@,
        decreases tasks@.len() - k,
    {
        if tasks[k].id == *id {
            proof {
                assert(tasks@[k as int].id@ == id@);
                let c = choose|j: int| 0 <= j < tasks@.len() && #[trigger] tasks@[j].id@ == id@;
                if c != k as int {
                    assert(tasks@[c].id@ != tasks@[k as int].id@);
                }
            }
            return Some(k);
        }
        k = k + 1;
    }
    None
}

/// The smallest position among the first `upto` tasks of goal `goal` other
/// than task `t`.
pub open spec fn min_order(tasks: Seq<Task>, t: int, goal: Seq<char>, upto: int) -> Option<int>
    decreases upto,
{
    if upto <= 0 {
        None
    } else {
        let prev = min_order(tasks, t, goal, upto - 1);
        let x = upto - 1;
        if x != t && tasks[x].goal_id@ == goal {
            match prev {
                Some(m) => if tasks[x].sort_order < m {
                    Some(tasks[x].sort_order as int)
                } else {
                    Some(m)
                },
                None => Some(tasks[x].sort_order as int),
            }
        } else {
            prev
        }
    }
}

/// The smallest position is at most that of every other task of the goal,
/// and there is one exactly when the goal has another task.
proof fn lemma_min_order(tasks: Seq<Task>, t: int, goal: Seq<char>, upto: int)
    requires
        0 <= upto <= tasks.len(),
    ensures
        forall|x: int|
            0 <= x < upto && x != t && #[trigger] tasks[x].goal_id@ == goal ==> min_order(tasks, t, goal, upto) is Some
                && min_order(tasks, t, goal, upto)->0 <= tasks[x].sort_order,
        min_order(tasks, t, goal, upto) is Some ==> exists|x: int|
            0 <= x < upto && x != t && #[trigger] tasks[x].goal_id@ == goal && min_order(tasks, t, goal, upto)->0
                == tasks[x].sort_order,
    decreases upto,
{
    if upto > 0 {
        lemma_min_order(tasks, t, goal, upto - 1);
        let x = upto - 1;
        if x != t && tasks[x].goal_id@ == goal {
            assert(tasks[x].goal_id@ == goal);
        }
    }
}

/// The position a moved task takes when no task to go before is given: with
/// a new goal, in front of every other task of that goal (0 when it has
/// none); without one, its own position is kept.
pub open spec fn front_order(tasks: Seq<Task>, t: int, input: MoveTaskInput, goal: Seq<char>) -> int {
    if input.goal_id is Some {
        match min_order(tasks, t, goal, tasks.len() as int) {
            Some(m) => m - 1,
            None => 0,
        }
    } else {
        tasks[t].sort_order as int
    }
}

/// The task table after task `t` moved to goal `goal`, stage `stage`, path
/// `path` and position `order`; when `target` is given, the other tasks of
/// `goal` at that position or later move one place down.
pub open spec fn moved_tasks(
    tasks: Seq<Task>,
    t: int,
    input: MoveTaskInput,
    goal: Seq<char>,
    stage: Option<String>,
    path: Seq<char>,
    order: int,
    target: Option<i64>,
    new: Seq<Task>,
) -> bool {
    &&& new.len() == tasks.len()
    &&& new[t].path@ == path
    &&& new[t] == (Task {
        goal_id: match input.goal_id {
            Some(g) => g,
            None => tasks[t].goal_id,
        },
        parent_id: match input.goal_id {
            Some(g) => Some(g),
            None => tasks[t].parent_id,
        },
        stage_id: stage,
        path: new[t].path,
        sort_order: order as i64,
        ..tasks[t]
    })
    &&& forall|x: int|
        0 <= x < tasks.len() && x != t ==> #[trigger] new[x] == (Task {
            sort_order: if target is Some && tasks[x].goal_id@ == goal && tasks[x].sort_order >= target->0 {
                (tasks[x].sort_order + 1) as i64
            } else {
                tasks[x].sort_order
            },
            ..tasks[x]
        })
}

/// What `move_task` gives.
pub open spec fn move_task_outcome(tasks: Seq<Task>, goals: Seq<Goal>, input: MoveTaskInput, r: AppResult<Vec<Task>>) -> bool {
    match task_index(tasks, input.task_id@) {
        None => r is Err && is_not_found_err(r->Err_0, not_found_text("任务"@, input.task_id@)),
        Some(t) => {
            let missing_goal = input.goal_id is Some && goal_index(goals, input.goal_id->0@) is None;
            let goal = match input.goal_id {
                Some(g) => g@,
                None => tasks[t].goal_id@,
            };
            let stage = if input.goal_id is Some {
                None
            } else {
                input.stage_id
            };
            let path = match stage {
                Some(s) => "/"@ + goal + "/"@ + s@ + "/"@ + input.task_id@,
                None => "/"@ + goal + "/"@ + input.task_id@,
            };
            let same_goal = input.goal_id is Some && input.goal_id->0@ == tasks[t].goal_id@ && input.before_task_id is None;
            &&& missing_goal ==> r is Err && is_not_found_err(r->Err_0, not_found_text("目标"@, input.goal_id->0@))
            &&& !missing_goal && same_goal ==> r is Err && is_param_err(r->Err_0, "任务已属于该目标，无需移动"@)
            &&& !missing_goal && !same_goal ==> match input.before_task_id {
                Some(b) => match task_index(tasks, b@) {
                    None => r is Err && is_not_found_err(r->Err_0, not_found_text("前置任务"@, b@)),
                    Some(bi) => {
                        &&& tasks[bi].goal_id@ != goal ==> r is Err && is_param_err(
                            r->Err_0,
                            "前置任务不属于目标目标，无法排序"@,
                        )
                        &&& tasks[bi].goal_id@ == goal ==> r is Ok && moved_tasks(
                            tasks,
                            t,
                            input,
                            goal,
                            stage,
                            path,
                            tasks[bi].sort_order as int,
                            Some(tasks[bi].sort_order),
                            r->Ok_0@,
                        )
                    },
                },
                None => r is Ok && moved_tasks(
                    tasks,
                    t,
                    input,
                    goal,
                    stage,
                    path,
                    front_order(tasks, t, input, goal),
                    None,
                    r->Ok_0@,
                ),
            }
        },
    }
}

/// Moves a task to another goal (leaving its stage), another stage of its
/// goal, or another position, and gives the whole task table afterwards.
///
/// The new goal must exist and, unless a task to go before is given, differ
/// from the task's goal. With `before_task_id` (a task of the new goal) the
/// task takes that task's position and the tasks of the goal from there on
/// move one place down; without it a task moved to another goal goes in
/// front of that goal's tasks, and a task moved within its goal (to another
/// stage) keeps its position. The path is rebuilt from the new goal (and
/// stage).
pub fn move_task(tasks: &Vec<Task>, goals: &Vec<Goal>, input: &MoveTaskInput) -> (r: AppResult<Vec<Task>>)
    requires
        crate::dependency::ids_distinct(tasks@),
        goal_ids_distinct(goals@),
        forall|x: int| 0 <= x < tasks@.len() ==> i64::MIN < #[trigger] tasks@[x].sort_order < i64::MAX,
    ensures
        move_task_outcome(tasks@, goals@, *input, r),
        // a task moved to another goal without a task to go before comes first there
        r is Ok && input.goal_id is Some && input.before_task_id is None ==> forall|x: int|
            0 <= x < r->Ok_0@.len() && r->Ok_0@[x].goal_id == input.goal_id->0 && r->Ok_0@[x].id@ != input.task_id@
                ==> #[trigger] r->Ok_0@[x].sort_order > r->Ok_0@[task_index(tasks@, input.task_id@)->0].sort_order,
        // a move without a new goal and without a task to go before keeps the position
        r is Ok && input.goal_id is None && input.before_task_id is None ==> r->Ok_0@[task_index(
            tasks@,
            input.task_id@,
        )->0].sort_order == tasks@[task_index(tasks@, input.task_id@)->0].sort_order,
{
    let t = match find_task_by_id(tasks, &input.task_id) {
        None => {
            return Err(not_found("任务", input.task_id.as_str()));
        },
        Some(t) => t,
    };
    if let Some(gid) = &input.goal_id {
        if find_goal(goals, gid).is_none() {
            return Err(not_found("目标", gid.as_str()));
        }
    }
    if let Some(gid) = &input.goal_id {
        if input.before_task_id.is_none() && *gid == tasks[t].goal_id {
            return Err(AppError::Param(String::from_str("任务已属于该目标，无需移动")));
        }
    }
    let goal: String = match &input.goal_id {
        Some(g) => g.clone(),
        None => tasks[t].goal_id.clone(),
    };
    let stage: Option<String> = if input.goal_id.is_some() {
        None
    } else {
        copy_opt_string(&input.stage_id)
    };
    let path = match &stage {
        Some(s) => String::from_str("/").concat(goal.as_str()).concat("/").concat(s.as_str()).concat("/").concat(
            input.task_id.as_str(),
        ),
        None => String::from_str("/").concat(goal.as_str()).concat("/").concat(input.task_id.as_str()),
    };
    let n = tasks.len();
    let (order, target): (i64, Option<i64>) = match &input.before_task_id {
        Some(b) => match find_task_by_id(tasks, b) {
            None => {
                return Err(not_found("前置任务", b.as_str()));
            },
            Some(bi) => {
                if tasks[bi].goal_id != goal {
                    return Err(AppError::Param(String::from_str("前置任务不属于目标目标，无法排序")));
                }
                (tasks[bi].sort_order, Some(tasks[bi].sort_order))
            },
        },
        None => if input.goal_id.is_none() {
            (tasks[t].sort_order, None)
        } else {
            let mut m: Option<i64> = None;
            let mut k: usize = 0;
            while k < n
                invariant
                    n == tasks@.len(),
                    k <= n,
                    forall|x: int| 0 <= x < n ==> i64::MIN < #[trigger] tasks@[x].sort_order < i64::MAX,
                    match m {
                        Some(v) => min_order(tasks@, t as int, goal@, k as int) == Some(v as int) && i64::MIN < v,
                        None => min_order(tasks@, t as int, goal@, k as int) is None,
                    },
                decreases n - k,
            {
                if k != t && tasks[k].goal_id == goal {
                    m = match m {
                        Some(v) => if tasks[k].sort_order < v {
                            Some(tasks[k].sort_order)
                        } else {
                            Some(v)
                        },
                        None => Some(tasks[k].sort_order),
                    };
                }
                k = k + 1;
            }
            match m {
                Some(v) => (v - 1, None),
                None => (0, None),
            }
        },
    };
    let mut out: Vec<Task> = Vec::new();
    let mut x: usize = 0;
    while x < n
        invariant
            n == tasks@.len(),
            t < n,
            x <= n,
            forall|y: int| 0 <= y < n ==> i64::MIN < #[trigger] tasks@[y].sort_order < i64::MAX,
            out@.len() == x,
            t < x ==> out@[t as int].path@ == path@ && out@[t as int] == (Task {
                goal_id: match input.goal_id {
                    Some(g) => g,
                    None => tasks@[t as int].goal_id,
                },
                parent_id: match input.goal_id {
                    Some(g) => Some(g),
                    None => tasks@[t as int].parent_id,
                },
                stage_id: stage,
                path: out@[t as int].path,
                sort_order: order,
                ..tasks@[t as int]
            }),
            forall|y: int|
                0 <= y < x && y != t ==> #[trigger] out@[y] == (Task {
                    sort_order: if target is Some && tasks@[y].goal_id@ == goal@ && tasks@[y].sort_order >= target->0 {
                        (tasks@[y].sort_order + 1) as i64
                    } else {
                        tasks@[y].sort_order
                    },
                    ..tasks@[y]
                }),
        decreases n - x,
    {
        let mut nt = tasks[x].copy();
        if x == t {
            if let Some(g) = &input.goal_id {
                nt.goal_id = g.clone();
                nt.parent_id = Some(g.clone());
            }
            nt.stage_id = copy_opt_string(&stage);
            nt.path = path.clone();
            nt.sort_order = order;
        } else {
            let shift = match target {
                Some(tg) => tasks[x].goal_id == goal && tasks[x].sort_order >= tg,
                None => false,
            };
            if shift {
                nt.sort_order = tasks[x].sort_order + 1;
            }
        }
        out.push(nt);
        x = x + 1;
    }
    proof {
        lemma_min_order(tasks@, t as int, goal@, n as int);
        if input.goal_id is Some && input.before_task_id is None {
            assert forall|x: int|
                0 <= x < out@.len() && out@[x].goal_id == input.goal_id->0 && out@[x].id@ != input.task_id@ implies
                #[trigger] out@[x].sort_order > out@[t as int].sort_order by {
                assert(x != t);
                assert(out@[x].goal_id == tasks@[x].goal_id);
                assert(tasks@[x].goal_id@ == goal@);
            }
        }
    }
    Ok(out)
}

/// The goals of the tasks named by the first `upto` ids, each once, in
/// order of first mention; ids of missing tasks are passed over.
pub open spec fn batch_goals(tasks: Seq<Task>, ids: Seq<String>, upto: int) -> Seq<Seq<char>>
    decreases upto,
{
    if upto <= 0 {
        Seq::empty()
    } else {
        let prev = batch_goals(tasks, ids, upto - 1);
        match task_index(tasks, ids[upto - 1]@) {
            Some(t) => if prev.contains(tasks[t].goal_id@) {
                prev
            } else {
                prev.push(tasks[t].goal_id@)
            },
            None => prev,
        }
    }
}

/// The number of tasks deleted by the first `upto` ids: each existing task
/// counts once, however often it is named.
pub open spec fn batch_deleted(tasks: Seq<Task>, ids: Seq<String>, upto: int) -> int
    decreases upto,
{
    if upto <= 0 {
        0
    } else {
        batch_deleted(tasks, ids, upto - 1) + if task_index(tasks, ids[upto - 1]@) is Some && !(exists|j: int|
            0 <= j < upto - 1 && #[trigger] ids[j]@ == ids[upto - 1]@) {
            1int
        } else {
            0int
        }
    }
}

/// The outcome of deleting the tasks `task_ids`: how many tasks go, and the
/// goals that lose tasks.
pub fn delete_tasks_batch(tasks: &Vec<Task>, task_ids: &Vec<String>) -> (r: DeleteTasksBatchResult)
    requires
        crate::dependency::ids_distinct(tasks@),
        task_ids@.len() <= i64::MAX,
    ensures
        r.deleted_count == batch_deleted(tasks@, task_ids@, task_ids@.len() as int),
        r.affected_goal_ids@.map_values(|s: String| s@) == batch_goals(tasks@, task_ids@, task_ids@.len() as int),
{
    let mut affected: Vec<String> = Vec::new();
    let mut deleted: i64 = 0;
    let n = task_ids.len();
    let mut k: usize = 0;
    while k < n
        invariant
            n == task_ids@.len(),
            n <= i64::MAX,
            k <= n,
            crate::dependency::ids_distinct(tasks@),
            0 <= deleted <= k,
            deleted == batch_deleted(tasks@, task_ids@, k as int),
            affected@.map_values(|s: String| s@) == batch_goals(tasks@, task_ids@, k as int),
        decreases n - k,
    {
        let id = &task_ids[k];
        let mut seen = false;
        let mut j: usize = 0;
        while j < k
            invariant
                k < task_ids@.len(),
                *id == task_ids@[k as int],
                j <= k,
                seen == exists|q: int| 0 <= q < j && #[trigger] task_ids@[q]@ == task_ids@[k as int]@,
            decreases k - j,
        {
            let hit = task_ids[j] == *id;
            proof {
                if seen {
                    let q = choose|q: int| 0 <= q < j && #[trigger] task_ids@[q]@ == task_ids@[k as int]@;
                    assert(0 <= q < j + 1);
                }
                if hit {
                    assert(task_ids@[j as int]@ == task_ids@[k as int]@);
                }
                if exists|q: int| 0 <= q < j + 1 && #[trigger] task_ids@[q]@ == task_ids@[k as int]@ {
                    let q = choose|q: int| 0 <= q < j + 1 && #[trigger] task_ids@[q]@ == task_ids@[k as int]@;
                    if q < j {
                        assert(seen);
                    }
                }
            }
            seen = seen || hit;
            j = j + 1;
        }
        match find_task_by_id(tasks, id) {
            Some(t) => {
                if !seen {
                    deleted = deleted + 1;
                }
                let g = &tasks[t].goal_id;
                let mut present = false;
                let mut q: usize = 0;
                while q < affected.len()
                    invariant
                        q <= affected@.len(),
                        present == exists|a: int| 0 <= a < q && #[trigger] affected@[a]@ == g@,
                    decreases affected@.len() - q,
                {
                    let hit = affected[q] == *g;
                    proof {
                        if present {
                            let a = choose|a: int| 0 <= a < q && #[trigger] affected@[a]@ == g@;
                            assert(0 <= a < q + 1);
                        }
                        if exists|a: int| 0 <= a < q + 1 && #[trigger] affected@[a]@ == g@ {
                            let a = choose|a: int| 0 <= a < q + 1 && #[trigger] affected@[a]@ == g@;
                            if a < q {
                                assert(present);
                            }
                        }
                    }
                    present = present || hit;
                    q = q + 1;
                }
                proof {
                    let views = affected@.map_values(|s: String| s@);
                    if present {
                        let a = choose|a: int| 0 <= a < affected@.len() && #[trigger] affected@[a]@ == g@;
                        assert(views[a] == g@);
                    } else {
                        if views.contains(g@) {
                            let a = choose|a: int| 0 <= a < views.len() && views[a] == g@;
                            assert(affected@[a]@ == g@);
                        }
                    }
                }
                if !present {
                    let ghost old_aff = affected@;
                    affected.push(g.clone());
                    proof {
                        assert(affected@.map_values(|s: String| s@) =~= old_aff.map_values(|s: String| s@).push(g@));
                    }
                }
            },
            None => {},
        }
        k = k + 1;
    }
    DeleteTasksBatchResult { deleted_count: deleted, affected_goal_ids: affected }
}

/// The outcome of deleting a task: its id and its goal's; a missing task is
/// an error.
pub fn delete_task(task: &Option<Task>, task_id: &str) -> (r: AppResult<DeleteTaskResult>)
    ensures
        task is None ==> r is Err && is_not_found_err(r->Err_0, not_found_text("任务"@, task_id@)),
        task is Some ==> r is Ok && r->Ok_0.task_id@ == task_id@ && r->Ok_0.goal_id == task->0.goal_id,
{
    match task {
        None => Err(not_found("任务", task_id)),
        Some(t) => Ok(DeleteTaskResult { task_id: String::from_str(task_id), goal_id: t.goal_id.clone() }),
    }
}

/// The record that makes `input.task_id` depend on `input.depends_on_id`.
///
/// A task depending on itself, a missing task, a missing prerequisite and a
/// dependency that would close a cycle (the prerequisite already depends on
/// the task through `deps`) are refused, in that order.
pub fn set_task_dependency(tasks: &Vec<Task>, deps: &Vec<TaskDependency>, input: &SetTaskDependencyInput) -> (r: AppResult<
    TaskDependency,
>)
    requires
        crate::dependency::ids_distinct(tasks@),
    ensures
        input.task_id@ == input.depends_on_id@ ==> r is Err && is_param_err(r->Err_0, "任务不能依赖自身"@),
        input.task_id@ != input.depends_on_id@ && task_index(tasks@, input.task_id@) is None ==> r is Err
            && is_not_found_err(r->Err_0, not_found_text("任务"@, input.task_id@)),
        input.task_id@ != input.depends_on_id@ && task_index(tasks@, input.task_id@) is Some && task_index(
            tasks@,
            input.depends_on_id@,
        ) is None ==> r is Err && is_not_found_err(r->Err_0, not_found_text("前置任务"@, input.depends_on_id@)),
        input.task_id@ != input.depends_on_id@ && task_index(tasks@, input.task_id@) is Some && task_index(
            tasks@,
            input.depends_on_id@,
        ) is Some ==> {
            &&& reaches(deps@, input.depends_on_id@, input.task_id@) ==> r is Err && is_business_err(
                r->Err_0,
                "添加该依赖会形成循环依赖，已拒绝"@,
            )
            &&& !reaches(deps@, input.depends_on_id@, input.task_id@) ==> r is Ok && r->Ok_0.task_id
                == input.task_id && r->Ok_0.depends_on_id == input.depends_on_id && r->Ok_0.id@.len() == 36
        },
{
    if input.task_id == input.depends_on_id {
        return Err(AppError::Param(String::from_str("任务不能依赖自身")));
    }
    if find_task_by_id(tasks, &input.task_id).is_none() {
        return Err(not_found("任务", input.task_id.as_str()));
    }
    if find_task_by_id(tasks, &input.depends_on_id).is_none() {
        return Err(not_found("前置任务", input.depends_on_id.as_str()));
    }
    if detect_cycle(deps, input.task_id.as_str(), input.depends_on_id.as_str()) {
        return Err(AppError::Business(String::from_str("添加该依赖会形成循环依赖，已拒绝")));
    }
    Ok(
        TaskDependency {
            id: new_uuid(),
            task_id: input.task_id.clone(),
            depends_on_id: input.depends_on_id.clone(),
            created_at: now_local_ts(),
        },
    )
}

/// Whether "`task_id` depends on `depends_on_id`" can be added without
/// closing a cycle.
pub fn validate_dependency_chain(deps: &Vec<TaskDependency>, task_id: &str, depends_on_id: &str) -> (r: bool)
    ensures
        r == !reaches(deps@, depends_on_id@, task_id@),
{
    !detect_cycle(deps, task_id, depends_on_id)
}

/// A task planned before `today` (by text order of the days) that is still
/// pending or partly done is overdue.
pub fn is_overdue(plan_date: &Option<String>, status: &str, today: &str) -> (r: bool)
    ensures
        r == (plan_date is Some && text_lt(plan_date->0@, today@) && (status@ == "pending"@ || status@
            == "partial"@)),
{
    match plan_date {
        Some(d) => text_less(d.as_str(), today) && (str_eq(status, "pending") || str_eq(status, "partial")),
        None => false,
    }
}

/// The overdue day to record for an overdue task: its planned day, when the
/// recorded one differs; `None` when nothing needs writing.
pub fn overdue_fix(task: &TodayTask) -> (r: Option<String>)
    ensures
        match task.plan_date {
            Some(d) => {
                let same = task.overdue_date is Some && task.overdue_date->0@ == d@;
                &&& !same ==> r == Some(d)
                &&& same ==> r is None
            },
            None => r is None,
        },
{
    match &task.plan_date {
        Some(d) => {
            let same = match &task.overdue_date {
                Some(o) => *o == *d,
                None => false,
            };
            if same {
                None
            } else {
                Some(d.clone())
            }
        },
        None => None,
    }
}

} // verus!
