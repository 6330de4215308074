//! Properties of the library as a whole: what splitting and re-planning
//! add up to, that accepted dependencies and goal moves never close a cycle
//! and goal moves keep every path consistent,
//! how progress and completion follow the goal tree, what an import writes,
//! that preferences read back as written, and that task statuses read back
//! as written.

use vstd::prelude::*;

use vstd::set_lib::{lemma_int_range, lemma_len_subset, set_int_range};

use crate::dependency::{dep_edge, dep_path, reaches};
use crate::goals::{chain_suffix, move_outcome, moved_table, placed_outcome, strictly_below};
use crate::progress::{
    actual_total, counts, goal_completed, goal_ids_distinct, goal_index, goal_own_done, in_subtree, parent_of, plan_total,
    progress_of, up,
};
use crate::error::AppResult;
use crate::backup::{
    dep_phase, enc_phase, goal_phase, import_plan_ok, pair_views, setting_phase, task_phase, ImportOp, ImportPlan, StoredIds,
};
use crate::textorder::views;
use crate::models::{Encouragement, ExportData, Setting, UpdateEncouragementSettingsInput};
use crate::settings::{flag_text, flag_value, row_views, setting_value, text_value, update_rows};
use crate::models::MoveGoalInput;
use crate::models::{Goal, Task, TaskDependency, TaskStatus, QTY_SCALE};
use crate::encourage::{picked, prefix_total};
use crate::replan::{auto_tasks, item_of, items_in_date_order, kept_tasks, plan_sum, preview_ok, replan_lines};
use crate::dependency::DepList;
use crate::models::ReplanPreview;
use crate::tasks::batch_deleted;
use crate::split::{cap_count, cap_qty, cap_split_tasks, even_base, even_count, even_qty, even_remainder, even_split_tasks};

verus! {

/// A status read back from its stored text is the status written:
/// different statuses have different texts.
pub proof fn law_status_text_round_trip(a: TaskStatus, b: TaskStatus)
    requires
        a.spec_text() == b.spec_text(),
    ensures
        a == b,
{
    reveal_strlit("pending");
    reveal_strlit("partial");
    reveal_strlit("done");
    reveal_strlit("skipped");
    let ta = a.spec_text();
    let tb = b.spec_text();
    assert(ta[0] == tb[0] && ta[1] == tb[1]);
    match a {
        TaskStatus::Pending => {
            assert(ta[0] == 'p' && ta[1] == 'e');
        },
        TaskStatus::Partial => {
            assert(ta[0] == 'p' && ta[1] == 'a');
        },
        TaskStatus::Done => {
            assert(ta[0] == 'd');
        },
        TaskStatus::Skipped => {
            assert(ta[0] == 's');
        },
    }
    match b {
        TaskStatus::Pending => {
            assert(tb[0] == 'p' && tb[1] == 'e');
        },
        TaskStatus::Partial => {
            assert(tb[0] == 'p' && tb[1] == 'a');
        },
        TaskStatus::Done => {
            assert(tb[0] == 'd');
        },
        TaskStatus::Skipped => {
            assert(tb[0] == 's');
        },
    }
}

/// The sum of the amounts of the first `n` days of an even split.
pub open spec fn even_sum(total: int, days: int, n: int) -> int
    decreases n,
{
    if n <= 0 {
        0
    } else {
        even_sum(total, days, n - 1) + even_qty(total, days, n - 1)
    }
}

proof fn lemma_even_sum(total: int, days: int, n: int)
    requires
        n >= 0,
    ensures
        even_sum(total, days, n) == n * even_base(total, days) + 100 * if n < even_remainder(total, days) {
            n
        } else if even_remainder(total, days) >= 0 {
            even_remainder(total, days)
        } else {
            0
        },
    decreases n,
{
    let base = even_base(total, days);
    let rem = even_remainder(total, days);
    if n > 0 {
        lemma_even_sum(total, days, n - 1);
        assert(n * base == (n - 1) * base + base) by (nonlinear_arith);
        let q = even_qty(total, days, n - 1);
        assert(q == if n - 1 < rem {
            base + 100
        } else {
            base
        });
        assert(even_sum(total, days, n) == even_sum(total, days, n - 1) + q);
    } else {
        assert(0 * base == 0);
    }
}

/// The amounts of an even split over whole units add up to the total, and
/// no two of them differ by more than one unit.
pub proof fn law_even_split_adds_up(total: int, days: int)
    requires
        total >= 0,
        days >= 1,
        total % (QTY_SCALE as int) == 0,
    ensures
        even_sum(total, days, days) == total,
        forall|i: int, j: int|
            0 <= i < days && 0 <= j < days ==> #[trigger] even_qty(total, days, i) - #[trigger] even_qty(total, days, j)
                <= QTY_SCALE as int,
        forall|i: int, j: int|
            0 <= i <= j < days ==> #[trigger] even_qty(total, days, i) >= #[trigger] even_qty(total, days, j),
{
    let u = 100 * days;
    let w = total / u;
    let base = even_base(total, days);
    assert(base == w * 100);
    assert(0 <= w && w * u <= total && total - w * u < u) by (nonlinear_arith)
        requires
            total >= 0,
            u >= 100,
            w == total / u,
    ;
    assert(base * days == w * u) by (nonlinear_arith)
        requires
            base == w * 100,
            u == 100 * days,
    ;
    let left = total - base * days;
    assert(0 <= left < 100 * days);
    assert(left % 100 == 0) by (nonlinear_arith)
        requires
            left == total - w * 100 * days,
            total % 100 == 0,
    {
        assert(total == (total / 100) * 100 + total % 100);
        assert(left == (total / 100 - w * days) * 100);
    }
    let rem = even_remainder(total, days);
    assert(rem == (left + 50) / 100);
    assert(rem * 100 == left) by (nonlinear_arith)
        requires
            left % 100 == 0,
            left >= 0,
            rem == (left + 50) / 100,
    {
        assert(left == (left / 100) * 100);
    }
    assert(rem <= days) by (nonlinear_arith)
        requires
            rem * 100 == left,
            left < 100 * days,
    ;
    lemma_even_sum(total, days, days);
}

/// The planned amounts of the tasks of an even split of a goal whose total
/// is a whole number of units add up to the total.
pub proof fn law_even_split_tasks_add_up(tasks: Seq<Task>, goal: Goal, today: int, days: int)
    requires
        even_split_tasks(tasks, goal, today, days),
        goal.total_qty > 0,
        days >= 1,
        (goal.total_qty as int) % (QTY_SCALE as int) == 0,
    ensures
        plan_sum(tasks) == goal.total_qty,
{
    let total = goal.total_qty as int;
    law_even_split_adds_up(total, days);
    crate::split::lemma_even_bounds(total, days);
    lemma_tasks_even_sum(tasks, total, days, tasks.len() as int, goal, today);
    assert(tasks.subrange(0, tasks.len() as int) =~= tasks);
    assert(tasks.len() == even_count(total, days));
    lemma_even_sum_tail(total, days, even_count(total, days), days);
}

proof fn lemma_tasks_even_sum(tasks: Seq<Task>, total: int, days: int, n: int, goal: Goal, today: int)
    requires
        0 <= n <= tasks.len(),
        even_split_tasks(tasks, goal, today, days),
        total == goal.total_qty,
    ensures
        plan_sum(tasks.subrange(0, n)) == even_sum(total, days, n),
    decreases n,
{
    if n > 0 {
        lemma_tasks_even_sum(tasks, total, days, n - 1, goal, today);
        assert(tasks.subrange(0, n).drop_last() =~= tasks.subrange(0, n - 1));
        assert(tasks[n - 1].plan_qty == even_qty(total, days, n - 1));
    }
    if n == tasks.len() {
        assert(tasks.subrange(0, n) =~= tasks);
    }
}

proof fn lemma_even_sum_tail(total: int, days: int, a: int, b: int)
    requires
        total > 0,
        days >= 1,
        0 <= a <= b <= days,
        a == even_count(total, days),
        forall|i: int| 0 <= i < days ==> (#[trigger] even_qty(total, days, i) > 0 <==> i < even_count(total, days)),
    ensures
        even_sum(total, days, b) == even_sum(total, days, a),
    decreases b - a,
{
    if b > a {
        lemma_even_sum_tail(total, days, a, b - 1);
        crate::split::lemma_even_bounds(total, days);
        assert(even_qty(total, days, b - 1) >= 0) by {
            crate::split::lemma_even_bounds(total, days);
        }
        assert(!(even_qty(total, days, b - 1) > 0));
    }
}

/// The sum of the amounts of the first `n` tasks of a split by a fixed
/// amount per task.
pub open spec fn cap_sum(total: int, per: int, n: int) -> int
    decreases n,
{
    if n <= 0 {
        0
    } else {
        cap_sum(total, per, n - 1) + cap_qty(total, per, n - 1)
    }
}

proof fn lemma_cap_sum(total: int, per: int, n: int)
    requires
        total > 0,
        per > 0,
        0 <= n < cap_count(total, per),
    ensures
        cap_sum(total, per, n) == n * per,
        total - n * per > 0,
    decreases n,
{
    crate::split::lemma_cap_bounds(total, per);
    if n > 0 {
        lemma_cap_sum(total, per, n - 1);
        assert(n * per == (n - 1) * per + per) by (nonlinear_arith);
        assert(total - (n - 1) * per >= per) by (nonlinear_arith)
            requires
                n < cap_count(total, per),
                cap_count(total, per) == (total + per - 1) / per,
                per > 0,
                total > 0,
        {
            assert((total + per - 1) / per * per <= total + per - 1);
            assert(n + 1 <= (total + per - 1) / per);
            assert((n + 1) * per <= (total + per - 1) / per * per);
        }
    } else {
        assert(total - 0 * per > 0);
    }
    assert(total - n * per > 0) by (nonlinear_arith)
        requires
            n < cap_count(total, per),
            cap_count(total, per) == (total + per - 1) / per,
            per > 0,
            total > 0,
            n >= 0,
    {
        assert((total + per - 1) / per * per <= total + per - 1);
        assert(n + 1 <= (total + per - 1) / per);
        assert((n + 1) * per <= (total + per - 1) / per * per);
    }
}

/// A split by a fixed amount per task adds up to the total, and no task
/// gets more than the fixed amount.
pub proof fn law_capacity_split_adds_up(total: int, per: int)
    requires
        total > 0,
        per > 0,
    ensures
        cap_sum(total, per, cap_count(total, per)) == total,
        forall|k: int| 0 <= k < cap_count(total, per) ==> 0 < #[trigger] cap_qty(total, per, k) <= per,
{
    crate::split::lemma_cap_bounds(total, per);
    let n = cap_count(total, per);
    assert(n >= 1) by (nonlinear_arith)
        requires
            n == (total + per - 1) / per,
            total > 0,
            per > 0,
    ;
    lemma_cap_sum(total, per, n - 1);
    assert(total - (n - 1) * per <= per) by (nonlinear_arith)
        requires
            n == (total + per - 1) / per,
            per > 0,
            total > 0,
    {
        assert(n * per > total + per - 1 - per);
        assert((n - 1) * per == n * per - per);
    }
    assert forall|k: int| 0 <= k < cap_count(total, per) implies 0 < #[trigger] cap_qty(total, per, k) <= per by {
        if k < n - 1 {
            lemma_cap_sum(total, per, k);
        } else {
            assert(k == n - 1);
        }
    }
}

/// The planned amounts of the tasks of a split by a fixed amount per task
/// add up to the total split.
pub proof fn law_capacity_split_tasks_add_up(tasks: Seq<Task>, goal: Goal, total: int, per: i64, first: int)
    requires
        cap_split_tasks(tasks, goal, total, per, first),
        total > 0,
        per > 0,
    ensures
        plan_sum(tasks) == total,
        forall|k: int| 0 <= k < tasks.len() ==> 0 < #[trigger] tasks[k].plan_qty <= per,
{
    law_capacity_split_adds_up(total, per as int);
    lemma_tasks_cap_sum(tasks, goal, total, per, first, tasks.len() as int);
    assert(tasks.subrange(0, tasks.len() as int) =~= tasks);
}

proof fn lemma_tasks_cap_sum(tasks: Seq<Task>, goal: Goal, total: int, per: i64, first: int, n: int)
    requires
        cap_split_tasks(tasks, goal, total, per, first),
        0 <= n <= tasks.len(),
    ensures
        plan_sum(tasks.subrange(0, n)) == cap_sum(total, per as int, n),
    decreases n,
{
    if n > 0 {
        lemma_tasks_cap_sum(tasks, goal, total, per, first, n - 1);
        assert(tasks.subrange(0, n).drop_last() =~= tasks.subrange(0, n - 1));
    }
}

/// No task depends on itself through a chain of one step or more.
pub open spec fn acyclic(deps: Seq<TaskDependency>) -> bool {
    forall|p: Seq<Seq<char>>| #[trigger] dep_path(deps, p) && p.len() >= 2 ==> p[0] != p.last()
}

proof fn lemma_old_prefix(deps: Seq<TaskDependency>, rec: TaskDependency, q: Seq<Seq<char>>, n: int)
    requires
        dep_path(deps.push(rec), q),
        0 <= n < q.len(),
        forall|m: int| 0 <= m < n ==> q[m] != rec.task_id@,
    ensures
        dep_path(deps, q.subrange(0, n + 1)),
    decreases n,
{
    let all = deps.push(rec);
    if n > 0 {
        lemma_old_prefix(deps, rec, q, n - 1);
        let pre = q.subrange(0, n);
        let cur = q.subrange(0, n + 1);
        let i = n - 1;
        assert(dep_edge(all, q[i], q[i + 1]));
        let k = choose|k: int| 0 <= k < all.len() && #[trigger] all[k].task_id@ == q[i] && all[k].depends_on_id@ == q[i + 1];
        assert(k < deps.len()) by {
            if k == deps.len() {
                assert(all[k] == rec);
            }
        }
        assert(deps[k] == all[k]);
        assert(dep_edge(deps, q[n - 1], q[n]));
        assert forall|j: int| 0 <= j < cur.len() - 1 implies #[trigger] dep_edge(deps, cur[j], cur[j + 1]) by {
            if j < n - 1 {
                assert(pre[j] == cur[j] && pre[j + 1] == cur[j + 1]);
                assert(dep_edge(deps, pre[j], pre[j + 1]));
            } else {
                assert(cur[j] == q[n - 1] && cur[j + 1] == q[n]);
            }
        }
    }
}

proof fn lemma_reaches_before(deps: Seq<TaskDependency>, rec: TaskDependency, q: Seq<Seq<char>>, n: int)
    requires
        dep_path(deps.push(rec), q),
        q[0] == rec.depends_on_id@,
        rec.depends_on_id@ != rec.task_id@,
        0 <= n < q.len(),
        q[n] == rec.task_id@,
    ensures
        reaches(deps, rec.depends_on_id@, rec.task_id@),
    decreases n,
{
    if exists|m: int| 0 <= m < n && q[m] == rec.task_id@ {
        let m = choose|m: int| 0 <= m < n && q[m] == rec.task_id@;
        lemma_reaches_before(deps, rec, q, m);
    } else {
        lemma_old_prefix(deps, rec, q, n);
        let pre = q.subrange(0, n + 1);
        assert(pre[0] == rec.depends_on_id@ && pre.last() == rec.task_id@);
    }
}

/// A dependency accepted by `set_task_dependency` (a task other than its
/// prerequisite, whose prerequisite does not already depend on it) never
/// closes a cycle: dependencies without cycles stay without cycles.
pub proof fn law_accepted_dependency_keeps_acyclic(deps: Seq<TaskDependency>, rec: TaskDependency)
    requires
        acyclic(deps),
        rec.task_id@ != rec.depends_on_id@,
        !reaches(deps, rec.depends_on_id@, rec.task_id@),
    ensures
        acyclic(deps.push(rec)),
{
    let all = deps.push(rec);
    assert forall|p: Seq<Seq<char>>| #[trigger] dep_path(all, p) && p.len() >= 2 implies p[0] != p.last() by {
        if p[0] == p.last() {
            if forall|i: int| 0 <= i < p.len() - 1 ==> #[trigger] dep_edge(deps, p[i], p[i + 1]) {
                assert(dep_path(deps, p));
            } else {
                let i = choose|i: int| 0 <= i < p.len() - 1 && !#[trigger] dep_edge(deps, p[i], p[i + 1]);
                assert(dep_edge(all, p[i], p[i + 1]));
                let k = choose|k: int|
                    0 <= k < all.len() && #[trigger] all[k].task_id@ == p[i] && all[k].depends_on_id@ == p[i + 1];
                if k < deps.len() {
                    assert(deps[k] == all[k]);
                    assert(dep_edge(deps, p[i], p[i + 1]));
                }
                assert(k == deps.len());
                assert(all[k] == rec);
                let first = p.subrange(i + 1, p.len() as int);
                let second = p.subrange(1, i + 1);
                let q = first + second;
                assert(q[0] == rec.depends_on_id@);
                assert forall|j: int| 0 <= j < q.len() - 1 implies #[trigger] dep_edge(all, q[j], q[j + 1]) by {
                    if j < first.len() - 1 {
                        assert(q[j] == p[i + 1 + j] && q[j + 1] == p[i + 2 + j]);
                        assert(dep_edge(all, p[i + 1 + j], p[i + 1 + j + 1]));
                    } else if j == first.len() - 1 {
                        assert(q[j] == p.last());
                        assert(q[j + 1] == p[1]);
                        let z: int = 0;
                        assert(dep_edge(all, p[z], p[z + 1]));
                    } else {
                        let m = j - first.len();
                        assert(q[j] == p[1 + m] && q[j + 1] == p[2 + m]);
                        assert(dep_edge(all, p[1 + m], p[1 + m + 1]));
                    }
                }
                assert(dep_path(all, q));
                assert(q[q.len() - 1] == rec.task_id@) by {
                    if i == 0 {
                        assert(q[q.len() - 1] == p.last());
                    } else {
                        assert(q[q.len() - 1] == p[i]);
                    }
                }
                lemma_reaches_before(deps, rec, q, q.len() - 1);
            }
        }
    }
}

/// The sum of the amounts of the preview lines flagged `retained`.
pub open spec fn line_sum(lines: Seq<(Task, int, bool)>, retained: bool) -> int
    decreases lines.len(),
{
    if lines.len() == 0 {
        0
    } else {
        line_sum(lines.drop_last(), retained) + if lines.last().2 == retained {
            lines.last().1
        } else {
            0
        }
    }
}

proof fn lemma_line_sum_concat(a: Seq<(Task, int, bool)>, b: Seq<(Task, int, bool)>, retained: bool)
    ensures
        line_sum(a + b, retained) == line_sum(a, retained) + line_sum(b, retained),
    decreases b.len(),
{
    if b.len() == 0 {
        assert(a + b =~= a);
    } else {
        assert((a + b).drop_last() =~= a + b.drop_last());
        lemma_line_sum_concat(a, b.drop_last(), retained);
    }
}

proof fn lemma_kept_lines(kept: Seq<Task>)
    ensures
        line_sum(kept.map_values(|t: Task| (t, t.plan_qty as int, true)), false) == 0,
    decreases kept.len(),
{
    if kept.len() > 0 {
        assert(kept.map_values(|t: Task| (t, t.plan_qty as int, true)).drop_last() =~= kept.drop_last().map_values(
            |t: Task| (t, t.plan_qty as int, true),
        ));
        lemma_kept_lines(kept.drop_last());
    }
}

proof fn lemma_replanned_lines(sorted: Seq<Task>, left: int, n: int, m: int)
    requires
        0 <= m <= sorted.len(),
        n == sorted.len(),
    ensures
        line_sum(
            sorted.subrange(0, m).map(
                |k: int, t: Task|
                    (
                        t,
                        if k < even_remainder(left, n) {
                            even_base(left, n) + 100
                        } else {
                            even_base(left, n)
                        },
                        false,
                    ),
            ),
            false,
        ) == even_sum(left, n, m),
    decreases m,
{
    let f = |k: int, t: Task|
        (
            t,
            if k < even_remainder(left, n) {
                even_base(left, n) + 100
            } else {
                even_base(left, n)
            },
            false,
        );
    if m > 0 {
        lemma_replanned_lines(sorted, left, n, m - 1);
        assert(sorted.subrange(0, m).map(f).drop_last() =~= sorted.subrange(0, m - 1).map(f));
    }
}

/// Re-planning spreads exactly what is left: when it is a whole number of
/// units, the new amounts of the re-planned tasks add up to it, and the
/// tasks set by hand keep their own amounts.
pub proof fn law_replan_spreads_what_is_left(kept: Seq<Task>, sorted: Seq<Task>, left: int)
    requires
        sorted.len() >= 1,
        left >= 0,
        left % 100 == 0,
    ensures
        line_sum(
            replan_lines(kept, sorted, even_base(left, sorted.len() as int), even_remainder(left, sorted.len() as int)),
            false,
        ) == left,
        forall|k: int|
            0 <= k < kept.len() ==> #[trigger] replan_lines(
                kept,
                sorted,
                even_base(left, sorted.len() as int),
                even_remainder(left, sorted.len() as int),
            )[k] == (kept[k], kept[k].plan_qty as int, true),
{
    let n = sorted.len() as int;
    let f = |k: int, t: Task|
        (
            t,
            if k < even_remainder(left, n) {
                even_base(left, n) + 100
            } else {
                even_base(left, n)
            },
            false,
        );
    let a = kept.map_values(|t: Task| (t, t.plan_qty as int, true));
    let b = sorted.map(f);
    assert(replan_lines(kept, sorted, even_base(left, n), even_remainder(left, n)) =~= a + b);
    lemma_line_sum_concat(a, b, false);
    lemma_kept_lines(kept);
    lemma_replanned_lines(sorted, left, n, n);
    assert(sorted.subrange(0, n) =~= sorted);
    law_even_split_adds_up(left, n);
}

/// Every candidate can be drawn: some roll falls on it, because every
/// weight is positive.
pub proof fn law_every_candidate_can_be_drawn(w: Seq<u64>, i: int)
    requires
        forall|k: int| 0 <= k < w.len() ==> #[trigger] w[k] >= 1,
        0 <= i < w.len(),
    ensures
        picked(w, prefix_total(w, i), i),
        prefix_total(w, i) < prefix_total(w, w.len() as int),
{
    assert(prefix_total(w, i + 1) == prefix_total(w, i) + w[i]);
    lemma_prefix_grows(w, i + 1, w.len() as int);
}

proof fn lemma_prefix_grows(w: Seq<u64>, a: int, b: int)
    requires
        0 <= a <= b <= w.len(),
    ensures
        prefix_total(w, a) <= prefix_total(w, b),
    decreases b - a,
{
    if b > a {
        lemma_prefix_grows(w, a, b - 1);
    }
}

/// A batch deletion never reports more deletions than ids given.
pub proof fn law_batch_deletes_at_most_given(tasks: Seq<Task>, ids: Seq<String>, n: int)
    requires
        0 <= n <= ids.len(),
    ensures
        0 <= batch_deleted(tasks, ids, n) <= n,
    decreases n,
{
    if n > 0 {
        law_batch_deletes_at_most_given(tasks, ids, n - 1);
    }
}


/// The parent links of the goal table form a forest: following the parents
/// of a goal never leads back to it.
pub open spec fn goal_forest(goals: Seq<Goal>) -> bool {
    forall|d: int, k: nat| 0 <= d < goals.len() && k > 0 ==> #[trigger] up(goals, d, k) != Some(d)
}

proof fn lemma_up_compose(goals: Seq<Goal>, d: int, a: nat, b: nat)
    ensures
        up(goals, d, a + b) == match up(goals, d, a) {
            Some(x) => up(goals, x, b),
            None => None,
        },
    decreases b,
{
    if b > 0 {
        lemma_up_compose(goals, d, a, (b - 1) as nat);
        assert((a + b - 1) as nat == a + (b - 1) as nat);
    }
}

proof fn lemma_up_in_range(goals: Seq<Goal>, d: int, k: nat)
    requires
        0 <= d < goals.len(),
    ensures
        up(goals, d, k) is Some ==> 0 <= up(goals, d, k)->0 < goals.len(),
        up(goals, d, k) is None ==> forall|j: nat| j >= k ==> #[trigger] up(goals, d, j) is None,
    decreases k,
{
    if k > 0 {
        lemma_up_in_range(goals, d, (k - 1) as nat);
    }
    if up(goals, d, k) is None {
        assert forall|j: nat| j >= k implies #[trigger] up(goals, d, j) is None by {
            lemma_up_compose(goals, d, k, (j - k) as nat);
            assert(k + (j - k) as nat == j);
        }
    }
}

/// The goals met walking up `k` steps from `d`.
spec fn chain_seq(goals: Seq<Goal>, d: int, k: nat) -> Seq<int> {
    Seq::new(k + 1, |i: int| up(goals, d, i as nat)->0)
}

proof fn lemma_walk_step_some(goals: Seq<Goal>, d: int, k: nat, i: nat)
    requires
        0 <= d < goals.len(),
        up(goals, d, k) is Some,
        i <= k,
    ensures
        up(goals, d, i) is Some,
        0 <= up(goals, d, i)->0 < goals.len(),
{
    lemma_up_in_range(goals, d, i);
    if up(goals, d, i) is None {
        assert(up(goals, d, k) is None);
    }
}

/// In a forest, a walk up the parent links that still stands on a goal has
/// taken fewer steps than there are goals.
proof fn lemma_forest_walk_short(goals: Seq<Goal>, d: int, k: nat)
    requires
        goal_forest(goals),
        0 <= d < goals.len(),
        up(goals, d, k) is Some,
    ensures
        k < goals.len(),
{
    let n = goals.len() as int;
    let c = chain_seq(goals, d, k);
    assert(c.no_duplicates()) by {
        assert forall|a: int, b: int| 0 <= a < c.len() && 0 <= b < c.len() && a != b implies c[a] != c[b] by {
            let (lo, hi) = if a < b {
                (a, b)
            } else {
                (b, a)
            };
            lemma_walk_step_some(goals, d, k, lo as nat);
            lemma_walk_step_some(goals, d, k, hi as nat);
            if c[lo] == c[hi] {
                let x = c[lo];
                lemma_up_compose(goals, d, lo as nat, (hi - lo) as nat);
                assert(lo as nat + (hi - lo) as nat == hi as nat);
                assert(up(goals, x, (hi - lo) as nat) == Some(x));
            }
        }
    }
    c.unique_seq_to_set();
    lemma_int_range(0, n);
    assert(c.to_set().subset_of(set_int_range(0, n))) by {
        assert forall|x: int| c.to_set().contains(x) implies set_int_range(0, n).contains(x) by {
            let i = choose|i: int| 0 <= i < c.len() && c[i] == x;
            lemma_walk_step_some(goals, d, k, i as nat);
        }
    }
    lemma_len_subset(c.to_set(), set_int_range(0, n));
}

/// In a forest, a goal that lies above another at any distance lies above
/// it in the sense of `in_subtree` (fewer steps than there are goals).
proof fn lemma_forest_above(goals: Seq<Goal>, g: int, x: int, k: nat)
    requires
        goal_forest(goals),
        0 <= x < goals.len(),
        up(goals, x, k) == Some(g),
    ensures
        in_subtree(goals, g, x),
{
    lemma_forest_walk_short(goals, x, k);
}

/// With the same ids at the same positions, a table finds every id at the
/// same position.
proof fn lemma_same_index(goals: Seq<Goal>, new: Seq<Goal>)
    requires
        goal_ids_distinct(goals),
        new.len() == goals.len(),
        forall|x: int| 0 <= x < goals.len() ==> (#[trigger] new[x]).id == goals[x].id,
    ensures
        forall|s: Seq<char>| #[trigger] goal_index(new, s) == goal_index(goals, s),
{
    assert forall|s: Seq<char>| #[trigger] goal_index(new, s) == goal_index(goals, s) by {
        if exists|j: int| 0 <= j < goals.len() && #[trigger] goals[j].id@ == s {
            let j = choose|j: int| 0 <= j < goals.len() && #[trigger] goals[j].id@ == s;
            assert(new[j].id@ == s);
            let a = goal_index(new, s)->0;
            let b = goal_index(goals, s)->0;
            assert(new[a].id@ == s);
            assert(goals[a].id@ == s);
            assert(goals[b].id@ == s);
        } else {
            if exists|j: int| 0 <= j < new.len() && #[trigger] new[j].id@ == s {
                let j = choose|j: int| 0 <= j < new.len() && #[trigger] new[j].id@ == s;
                assert(goals[j].id@ == s);
            }
        }
    }
}

/// What an accepted move changes of the parent links: only the moved
/// goal's parent, and ids stay where they were.
proof fn lemma_placed_links(goals: Seq<Goal>, input: MoveGoalInput, g: int, path: Seq<char>, r: AppResult<Vec<Goal>>)
    requires
        placed_outcome(goals, input, g, path, r),
        r is Ok,
    ensures
        r->Ok_0@.len() == goals.len(),
        forall|x: int|
            0 <= x < goals.len() ==> (#[trigger] r->Ok_0@[x]).id == goals[x].id && r->Ok_0@[x].parent_id == if x == g {
                input.new_parent_id
            } else {
                goals[x].parent_id
            },
{
    let new = r->Ok_0@;
    assert forall|x: int| 0 <= x < goals.len() implies (#[trigger] new[x]).id == goals[x].id && new[x].parent_id == if x
        == g {
        input.new_parent_id
    } else {
        goals[x].parent_id
    } by {
        assert(new[x] == r->Ok_0@[x]);
    }
}

/// Moving a goal never puts a cycle into the goal tree: when the table is a
/// forest and `move_goal` accepts the move, the table it gives is a forest.
pub proof fn law_move_keeps_goal_forest(goals: Seq<Goal>, input: MoveGoalInput, r: AppResult<Vec<Goal>>)
    requires
        goal_ids_distinct(goals),
        goal_forest(goals),
        move_outcome(goals, input, r),
        r is Ok,
    ensures
        goal_forest(r->Ok_0@),
{
    let new = r->Ok_0@;
    let g = goal_index(goals, input.goal_id@)->0;
    let id = goals[g].id@;
    match input.new_parent_id {
        Some(p) => {
            lemma_placed_links(goals, input, g, goals[goal_index(goals, p@)->0].path@ + "/"@ + id, r);
        },
        None => {
            lemma_placed_links(goals, input, g, "/"@ + id, r);
        },
    }
    lemma_same_index(goals, new);
    let pidx: Option<int> = match input.new_parent_id {
        Some(p) => goal_index(goals, p@),
        None => None,
    };
    // the links of the new table
    assert forall|x: int| 0 <= x < goals.len() implies #[trigger] parent_of(new, x) == if x == g {
        pidx
    } else {
        parent_of(goals, x)
    } by {
        assert(new[x].parent_id == if x == g {
            input.new_parent_id
        } else {
            goals[x].parent_id
        });
    }
    lemma_up_in_range(goals, g, 0);
    // walking up from the moved goal never comes back to it
    lemma_walk_from_moved(goals, new, g, pidx, input);
    assert forall|d: int, k: nat| 0 <= d < new.len() && k > 0 implies #[trigger] up(new, d, k) != Some(d) by {
        lemma_walk_until_moved(goals, new, g, pidx, d, k);
        if up(new, d, k) == Some(d) {
            if exists|j: nat| j < k && #[trigger] up(new, d, j) == Some(g) {
                let j = choose|j: nat| j < k && #[trigger] up(new, d, j) == Some(g);
                lemma_up_compose(new, d, j, k);
                lemma_up_compose(new, d, k, j);
                assert(j + k == k + j);
                assert(up(new, g, k) == Some(g));
            } else {
                assert(up(goals, d, k) == Some(d));
            }
        }
    }
}

/// The walk up from the moved goal in the new table: its first step is the
/// new parent, then it follows the old links from there, never meeting the
/// moved goal again.
proof fn lemma_walk_from_moved(goals: Seq<Goal>, new: Seq<Goal>, g: int, pidx: Option<int>, input: MoveGoalInput)
    requires
        goal_ids_distinct(goals),
        goal_forest(goals),
        0 <= g < goals.len(),
        new.len() == goals.len(),
        goals[g].id@ == input.goal_id@,
        pidx is Some ==> 0 <= pidx->0 < goals.len() && pidx->0 != g && !in_subtree(goals, g, pidx->0),
        forall|x: int| 0 <= x < goals.len() ==> #[trigger] parent_of(new, x) == if x == g {
            pidx
        } else {
            parent_of(goals, x)
        },
    ensures
        forall|k: nat| k > 0 ==> #[trigger] up(new, g, k) != Some(g),
{
    assert forall|k: nat| k > 0 implies #[trigger] up(new, g, k) != Some(g) by {
        lemma_walk_from_moved_at(goals, new, g, pidx, k);
    }
}

proof fn lemma_walk_from_moved_at(goals: Seq<Goal>, new: Seq<Goal>, g: int, pidx: Option<int>, k: nat)
    requires
        goal_forest(goals),
        0 <= g < goals.len(),
        new.len() == goals.len(),
        pidx is Some ==> 0 <= pidx->0 < goals.len() && pidx->0 != g && !in_subtree(goals, g, pidx->0),
        forall|x: int| 0 <= x < goals.len() ==> #[trigger] parent_of(new, x) == if x == g {
            pidx
        } else {
            parent_of(goals, x)
        },
        k > 0,
    ensures
        up(new, g, k) == match pidx {
            Some(p) => up(goals, p, (k - 1) as nat),
            None => None,
        },
        up(new, g, k) != Some(g),
    decreases k,
{
    assert(up(new, g, 0) == Some(g));
    if k == 1 {
        assert(parent_of(new, g) == pidx);
        match pidx {
            Some(p) => {
                assert(up(goals, p, 0) == Some(p));
            },
            None => {},
        }
    } else {
        lemma_walk_from_moved_at(goals, new, g, pidx, (k - 1) as nat);
        match pidx {
            Some(p) => {
                let prev = up(goals, p, (k - 2) as nat);
                assert(((k - 1) as nat - 1) as nat == (k - 2) as nat);
                lemma_up_in_range(goals, p, (k - 2) as nat);
                match prev {
                    Some(x) => {
                        assert(x != g);
                        assert(parent_of(new, x) == parent_of(goals, x));
                        assert(up(goals, p, (k - 1) as nat) == parent_of(goals, x));
                        if up(goals, p, (k - 1) as nat) == Some(g) {
                            lemma_forest_above(goals, g, p, (k - 1) as nat);
                        }
                    },
                    None => {},
                }
            },
            None => {},
        }
    }
}

/// A walk up from any goal in the new table follows the old links until it
/// meets the moved goal.
proof fn lemma_walk_until_moved(goals: Seq<Goal>, new: Seq<Goal>, g: int, pidx: Option<int>, d: int, k: nat)
    requires
        0 <= g < goals.len(),
        0 <= d < goals.len(),
        new.len() == goals.len(),
        forall|x: int| 0 <= x < goals.len() ==> #[trigger] parent_of(new, x) == if x == g {
            pidx
        } else {
            parent_of(goals, x)
        },
    ensures
        (exists|j: nat| j < k && #[trigger] up(new, d, j) == Some(g)) || up(new, d, k) == up(goals, d, k),
    decreases k,
{
    if k > 0 {
        lemma_walk_until_moved(goals, new, g, pidx, d, (k - 1) as nat);
        if exists|j: nat| j < (k - 1) as nat && #[trigger] up(new, d, j) == Some(g) {
            let j = choose|j: nat| j < (k - 1) as nat && #[trigger] up(new, d, j) == Some(g);
            assert(j < k);
        } else if up(new, d, (k - 1) as nat) == Some(g) {
            assert(((k - 1) as nat) < k);
        } else {
            lemma_up_in_range(goals, d, (k - 1) as nat);
        }
    }
}


/// Every goal's path is its parent's path followed by `/` and its own id,
/// and the path of a goal without a parent in the table is `/` and its id.
pub open spec fn paths_consistent(goals: Seq<Goal>) -> bool {
    forall|x: int|
        0 <= x < goals.len() ==> (#[trigger] goals[x]).path@ == match parent_of(goals, x) {
            Some(p) => goals[p].path@ + "/"@ + goals[x].id@,
            None => "/"@ + goals[x].id@,
        }
}

/// A path tail from `x` up to `g` is a walk of at most `fuel` steps.
proof fn lemma_chain_walk(goals: Seq<Goal>, x: int, g: int, fuel: nat) -> (k: nat)
    requires
        chain_suffix(goals, x, g, fuel) is Some,
    ensures
        k <= fuel,
        up(goals, x, k) == Some(g),
    decreases fuel,
{
    if x == g {
        0
    } else {
        let p = parent_of(goals, x)->0;
        let k1 = lemma_chain_walk(goals, p, g, (fuel - 1) as nat);
        lemma_up_compose(goals, x, 1, k1);
        assert(up(goals, x, 1) == parent_of(goals, x)) by {
            assert(up(goals, x, 0) == Some(x));
        }
        assert(1 + k1 == k1 + 1);
        k1 + 1
    }
}

/// A walk of at most `fuel` steps from `x` up to `g` gives a path tail.
proof fn lemma_walk_chain(goals: Seq<Goal>, x: int, g: int, k: nat, fuel: nat)
    requires
        up(goals, x, k) == Some(g),
        k <= fuel,
    ensures
        chain_suffix(goals, x, g, fuel) is Some,
    decreases k,
{
    if x != g {
        assert(k > 0);
        lemma_up_compose(goals, x, 1, (k - 1) as nat);
        assert(1 + (k - 1) as nat == k);
        assert(up(goals, x, 1) == parent_of(goals, x)) by {
            assert(up(goals, x, 0) == Some(x));
        }
        let p = parent_of(goals, x)->0;
        lemma_walk_chain(goals, p, g, (k - 1) as nat, (fuel - 1) as nat);
    }
}

/// More fuel gives the same path tail.
proof fn lemma_chain_fuel(goals: Seq<Goal>, x: int, g: int, fuel: nat)
    requires
        chain_suffix(goals, x, g, fuel) is Some,
    ensures
        chain_suffix(goals, x, g, fuel + 1) == chain_suffix(goals, x, g, fuel),
    decreases fuel,
{
    if x != g {
        let p = parent_of(goals, x)->0;
        lemma_chain_fuel(goals, p, g, (fuel - 1) as nat);
        assert((fuel + 1 - 1) as nat == ((fuel - 1) as nat + 1) as nat);
    }
}

/// What an accepted move gives each goal as its path.
proof fn lemma_placed_paths(goals: Seq<Goal>, input: MoveGoalInput, g: int, path: Seq<char>, r: AppResult<Vec<Goal>>)
    requires
        placed_outcome(goals, input, g, path, r),
        r is Ok,
    ensures
        forall|x: int|
            0 <= x < goals.len() ==> (#[trigger] r->Ok_0@[x]).path@ == match chain_suffix(
                goals,
                x,
                g,
                (goals.len() - 1) as nat,
            ) {
                Some(s) => path + s,
                None => goals[x].path@,
            },
{
    let new = r->Ok_0@;
    assert forall|x: int| 0 <= x < goals.len() implies (#[trigger] new[x]).path@ == match chain_suffix(
        goals,
        x,
        g,
        (goals.len() - 1) as nat,
    ) {
        Some(s) => path + s,
        None => goals[x].path@,
    } by {
        assert(new[x] == r->Ok_0@[x]);
    }
}

/// Moving a goal keeps the paths consistent: when every goal's path is its
/// parent's path followed by its id and `move_goal` accepts the move, the
/// same holds of every goal in the table it gives (the moved goal and every
/// goal below it get new paths).
pub proof fn law_move_keeps_paths_consistent(goals: Seq<Goal>, input: MoveGoalInput, r: AppResult<Vec<Goal>>)
    requires
        goal_ids_distinct(goals),
        goal_forest(goals),
        paths_consistent(goals),
        move_outcome(goals, input, r),
        r is Ok,
    ensures
        paths_consistent(r->Ok_0@),
{
    let new = r->Ok_0@;
    let g = goal_index(goals, input.goal_id@)->0;
    let id = goals[g].id@;
    let n = goals.len() as int;
    let f = (n - 1) as nat;
    let pidx: Option<int> = match input.new_parent_id {
        Some(p) => goal_index(goals, p@),
        None => None,
    };
    let path = match input.new_parent_id {
        Some(p) => goals[goal_index(goals, p@)->0].path@ + "/"@ + id,
        None => "/"@ + id,
    };
    lemma_placed_links(goals, input, g, path, r);
    lemma_placed_paths(goals, input, g, path, r);
    lemma_same_index(goals, new);
    assert forall|x: int| 0 <= x < goals.len() implies #[trigger] parent_of(new, x) == if x == g {
        pidx
    } else {
        parent_of(goals, x)
    } by {
        assert(new[x].parent_id == if x == g {
            input.new_parent_id
        } else {
            goals[x].parent_id
        });
    }
    // the new parent does not lie below the moved goal
    if pidx is Some {
        let q = pidx->0;
        let p = input.new_parent_id->0;
        assert(goals[q].id@ == p@);
        if q == g {
            assert(p@ == id);
        }
        if chain_suffix(goals, q, g, f) is Some {
            let k = lemma_chain_walk(goals, q, g, f);
            assert(in_subtree(goals, g, q));
            assert(strictly_below(goals, g, p@));
        }
        assert(new[q].path@ == goals[q].path@);
    }
    assert forall|x: int| 0 <= x < new.len() implies (#[trigger] new[x]).path@ == match parent_of(new, x) {
        Some(p) => new[p].path@ + "/"@ + new[x].id@,
        None => "/"@ + new[x].id@,
    } by {
        assert(new[x].id == goals[x].id);
        if x == g {
            assert(chain_suffix(goals, x, g, f) == Some(Seq::<char>::empty()));
            assert(path + Seq::<char>::empty() =~= path);
        } else {
            match parent_of(goals, x) {
                None => {
                    assert(chain_suffix(goals, x, g, f) is None);
                    assert(goals[x].path@ == "/"@ + goals[x].id@);
                },
                Some(q) => {
                    lemma_up_in_range(goals, x, 1);
                    assert(up(goals, x, 1) == parent_of(goals, x)) by {
                        assert(up(goals, x, 0) == Some(x));
                    }
                    assert(0 <= q < n);
                    match chain_suffix(goals, x, g, f) {
                        Some(s) => {
                            let s1 = chain_suffix(goals, q, g, (f - 1) as nat)->0;
                            assert(s == s1 + "/"@ + goals[x].id@);
                            lemma_chain_fuel(goals, q, g, (f - 1) as nat);
                            assert(((f - 1) as nat + 1) as nat == f);
                            assert(new[q].path@ == path + s1);
                            assert(path + s =~= path + s1 + "/"@ + goals[x].id@);
                        },
                        None => {
                            if chain_suffix(goals, q, g, f) is Some {
                                let k = lemma_chain_walk(goals, q, g, f);
                                lemma_up_compose(goals, x, 1, k);
                                assert(1 + k == k + 1);
                                lemma_forest_walk_short(goals, x, k + 1);
                                lemma_walk_chain(goals, q, g, k, (f - 1) as nat);
                                assert(chain_suffix(goals, x, g, f) is Some);
                            }
                            assert(new[q].path@ == goals[q].path@);
                            assert(goals[x].path@ == goals[q].path@ + "/"@ + goals[x].id@);
                        },
                    }
                },
            }
        }
    }
}

/// Goal `c` is a sub-goal of goal `g`: its parent id is `g`'s id.
pub open spec fn is_child(goals: Seq<Goal>, c: int, g: int) -> bool {
    goals[c].parent_id is Some && goals[c].parent_id->0@ == goals[g].id@
}

proof fn lemma_child_link(goals: Seq<Goal>, c: int, g: int)
    requires
        goal_ids_distinct(goals),
        0 <= c < goals.len(),
        0 <= g < goals.len(),
    ensures
        is_child(goals, c, g) <==> parent_of(goals, c) == Some(g),
{
    if is_child(goals, c, g) {
        let b = goal_index(goals, goals[g].id@)->0;
        assert(goals[b].id@ == goals[g].id@);
    }
    if parent_of(goals, c) == Some(g) {
        let p = goals[c].parent_id->0;
        assert(goals[g].id@ == p@);
    }
}

/// A goal is completed exactly when it is done on its own and each of its
/// sub-goals is completed (in a goal tree with distinct ids).
pub proof fn law_completion_is_recursive(goals: Seq<Goal>, tasks: Seq<Task>, g: int)
    requires
        goal_ids_distinct(goals),
        goal_forest(goals),
        0 <= g < goals.len(),
    ensures
        goal_completed(goals, tasks, g) <==> (goal_own_done(goals, tasks, g) && forall|c: int|
            0 <= c < goals.len() && #[trigger] is_child(goals, c, g) ==> goal_completed(goals, tasks, c)),
{
    assert(up(goals, g, 0) == Some(g));
    assert(in_subtree(goals, g, g));
    if goal_completed(goals, tasks, g) {
        assert forall|c: int| 0 <= c < goals.len() && #[trigger] is_child(goals, c, g) implies goal_completed(
            goals,
            tasks,
            c,
        ) by {
            lemma_child_link(goals, c, g);
            assert forall|d: int| 0 <= d < goals.len() && #[trigger] in_subtree(goals, c, d) implies goal_own_done(
                goals,
                tasks,
                d,
            ) by {
                let k = choose|k: nat| k < goals.len() && #[trigger] up(goals, d, k) == Some(c);
                assert(up(goals, d, k + 1) == Some(g));
                lemma_forest_walk_short(goals, d, k + 1);
                assert(in_subtree(goals, g, d));
            }
        }
    }
    if goal_own_done(goals, tasks, g) && forall|c: int|
        0 <= c < goals.len() && #[trigger] is_child(goals, c, g) ==> goal_completed(goals, tasks, c) {
        assert forall|d: int| 0 <= d < goals.len() && #[trigger] in_subtree(goals, g, d) implies goal_own_done(
            goals,
            tasks,
            d,
        ) by {
            let k = choose|k: nat| k < goals.len() && #[trigger] up(goals, d, k) == Some(g);
            if k > 0 {
                let k1 = (k - 1) as nat;
                lemma_up_in_range(goals, d, k1);
                let c = up(goals, d, k1)->0;
                assert(parent_of(goals, c) == Some(g));
                lemma_child_link(goals, c, g);
                assert(is_child(goals, c, g));
                assert(in_subtree(goals, c, d));
            }
        }
    }
}


/// The completion flag that the progress of a goal reports follows the
/// recursive rule (done on its own, every sub-goal completed), and it is
/// what `check_goal_completed` answers for that goal's id.
pub proof fn law_progress_completion_matches_check(goals: Seq<Goal>, tasks: Seq<Task>, p: crate::models::ProgressInfo, g: int)
    requires
        goal_ids_distinct(goals),
        goal_forest(goals),
        0 <= g < goals.len(),
        progress_of(p, goals, tasks, g),
    ensures
        p.is_completed <==> (goal_own_done(goals, tasks, g) && forall|c: int|
            0 <= c < goals.len() && #[trigger] is_child(goals, c, g) ==> goal_completed(goals, tasks, c)),
        goal_index(goals, goals[g].id@) == Some(g),
        p.is_completed == goal_completed(goals, tasks, goal_index(goals, goals[g].id@)->0),
{
    law_completion_is_recursive(goals, tasks, g);
    assert(goals[g].id@ == goals[g].id@);
    let j = goal_index(goals, goals[g].id@)->0;
    assert(goals[j].id@ == goals[g].id@);
}

/// Task `t` is one of goal `g`'s own tasks and is not skipped.
pub open spec fn own_counts(goals: Seq<Goal>, g: int, t: Task) -> bool {
    t.status@ != "skipped"@ && goal_index(goals, t.goal_id@) == Some(g)
}

/// The planned and done amounts of goal `g`'s own tasks that are not skipped.
pub open spec fn own_totals(goals: Seq<Goal>, tasks: Seq<Task>, g: int) -> (int, int)
    decreases tasks.len(),
{
    if tasks.len() == 0 {
        (0, 0)
    } else {
        let s = own_totals(goals, tasks.drop_last(), g);
        let t = tasks.last();
        if own_counts(goals, g, t) {
            (s.0 + t.plan_qty, s.1 + t.actual_qty)
        } else {
            s
        }
    }
}

/// The planned and done totals of the sub-goals of `g` among the first `upto` goals.
pub open spec fn children_totals(goals: Seq<Goal>, tasks: Seq<Task>, g: int, upto: int) -> (int, int)
    decreases upto,
{
    if upto <= 0 {
        (0, 0)
    } else {
        let s = children_totals(goals, tasks, g, upto - 1);
        if is_child(goals, upto - 1, g) {
            (s.0 + plan_total(goals, tasks, upto - 1), s.1 + actual_total(goals, tasks, upto - 1))
        } else {
            s
        }
    }
}

/// The number of sub-goals of `g` among the first `upto` for which task `t` counts.
spec fn counting_children(goals: Seq<Goal>, g: int, t: Task, upto: int) -> int
    decreases upto,
{
    if upto <= 0 {
        0
    } else {
        counting_children(goals, g, t, upto - 1) + if is_child(goals, upto - 1, g) && counts(goals, upto - 1, t) {
            1int
        } else {
            0int
        }
    }
}

/// A task counts for a goal when it is one of the goal's own tasks or it
/// counts for a sub-goal; it then counts for no other sub-goal, and an own
/// task counts for no sub-goal.
proof fn lemma_counts_split(goals: Seq<Goal>, g: int, t: Task)
    requires
        goal_ids_distinct(goals),
        goal_forest(goals),
        0 <= g < goals.len(),
    ensures
        counts(goals, g, t) <==> (own_counts(goals, g, t) || exists|c: int|
            0 <= c < goals.len() && #[trigger] is_child(goals, c, g) && counts(goals, c, t)),
        forall|c1: int, c2: int|
            0 <= c1 < goals.len() && 0 <= c2 < goals.len() && #[trigger] is_child(goals, c1, g) && #[trigger] is_child(
                goals,
                c2,
                g,
            ) && counts(goals, c1, t) && counts(goals, c2, t) ==> c1 == c2,
        own_counts(goals, g, t) ==> forall|c: int|
            0 <= c < goals.len() && #[trigger] is_child(goals, c, g) ==> !counts(goals, c, t),
{
    assert(up(goals, g, 0) == Some(g));
    if counts(goals, g, t) && !own_counts(goals, g, t) {
        let d = goal_index(goals, t.goal_id@)->0;
        let k = choose|k: nat| k < goals.len() && #[trigger] up(goals, d, k) == Some(g);
        assert(k > 0);
        let k1 = (k - 1) as nat;
        lemma_up_in_range(goals, d, k1);
        let c = up(goals, d, k1)->0;
        lemma_child_link(goals, c, g);
        assert(in_subtree(goals, c, d));
        assert(is_child(goals, c, g) && counts(goals, c, t));
    }
    assert forall|c: int| 0 <= c < goals.len() && #[trigger] is_child(goals, c, g) && counts(goals, c, t) implies counts(
        goals,
        g,
        t,
    ) && !own_counts(goals, g, t) by {
        let d = goal_index(goals, t.goal_id@)->0;
        lemma_child_link(goals, c, g);
        let k = choose|k: nat| k < goals.len() && #[trigger] up(goals, d, k) == Some(c);
        assert(up(goals, d, k + 1) == Some(g));
        lemma_forest_walk_short(goals, d, k + 1);
        assert(in_subtree(goals, g, d));
        if own_counts(goals, g, t) {
            assert(d == g);
            assert(up(goals, g, k + 1) == Some(g));
        }
    }
    assert forall|c1: int, c2: int|
        0 <= c1 < goals.len() && 0 <= c2 < goals.len() && #[trigger] is_child(goals, c1, g) && #[trigger] is_child(
            goals,
            c2,
            g,
        ) && counts(goals, c1, t) && counts(goals, c2, t) implies c1 == c2 by {
        let d = goal_index(goals, t.goal_id@)->0;
        lemma_child_link(goals, c1, g);
        lemma_child_link(goals, c2, g);
        let k1 = choose|k: nat| k < goals.len() && #[trigger] up(goals, d, k) == Some(c1);
        let k2 = choose|k: nat| k < goals.len() && #[trigger] up(goals, d, k) == Some(c2);
        assert(up(goals, d, k1 + 1) == Some(g));
        assert(up(goals, d, k2 + 1) == Some(g));
        if k1 < k2 {
            lemma_up_compose(goals, d, k1 + 1, (k2 - k1) as nat);
            assert(k1 + 1 + (k2 - k1) as nat == k2 + 1);
            assert(up(goals, g, (k2 - k1) as nat) == Some(g));
        } else if k2 < k1 {
            lemma_up_compose(goals, d, k2 + 1, (k1 - k2) as nat);
            assert(k2 + 1 + (k1 - k2) as nat == k1 + 1);
            assert(up(goals, g, (k1 - k2) as nat) == Some(g));
        }
    }
}

proof fn lemma_counting_children_value(goals: Seq<Goal>, g: int, t: Task, upto: int)
    requires
        goal_ids_distinct(goals),
        goal_forest(goals),
        0 <= g < goals.len(),
        0 <= upto <= goals.len(),
    ensures
        counting_children(goals, g, t, upto) == if exists|c: int|
            0 <= c < upto && #[trigger] is_child(goals, c, g) && counts(goals, c, t) {
            1int
        } else {
            0int
        },
    decreases upto,
{
    lemma_counts_split(goals, g, t);
    if upto > 0 {
        lemma_counting_children_value(goals, g, t, upto - 1);
        let c = upto - 1;
        if is_child(goals, c, g) && counts(goals, c, t) {
            if exists|c2: int| 0 <= c2 < upto - 1 && #[trigger] is_child(goals, c2, g) && counts(goals, c2, t) {
                let c2 = choose|c2: int| 0 <= c2 < upto - 1 && #[trigger] is_child(goals, c2, g) && counts(goals, c2, t);
                assert(c2 == c);
            }
        } else {
            if exists|c2: int| 0 <= c2 < upto && #[trigger] is_child(goals, c2, g) && counts(goals, c2, t) {
                let c2 = choose|c2: int| 0 <= c2 < upto && #[trigger] is_child(goals, c2, g) && counts(goals, c2, t);
                assert(c2 < upto - 1);
            }
        }
    }
}

proof fn lemma_children_totals_step(goals: Seq<Goal>, tasks: Seq<Task>, g: int, upto: int)
    requires
        tasks.len() > 0,
        0 <= upto <= goals.len(),
    ensures
        ({
            let t = tasks.last();
            let before = children_totals(goals, tasks.drop_last(), g, upto);
            let n = counting_children(goals, g, t, upto);
            children_totals(goals, tasks, g, upto) == (before.0 + n * t.plan_qty, before.1 + n * t.actual_qty)
        }),
    decreases upto,
{
    if upto > 0 {
        lemma_children_totals_step(goals, tasks, g, upto - 1);
        let t = tasks.last();
        let n1 = counting_children(goals, g, t, upto - 1);
        assert((n1 + 1) * t.plan_qty == n1 * t.plan_qty + t.plan_qty) by (nonlinear_arith);
        assert((n1 + 1) * t.actual_qty == n1 * t.actual_qty + t.actual_qty) by (nonlinear_arith);
    }
}

/// The progress of a goal adds up over the tree: its planned and done totals
/// are those of its own tasks plus those of its sub-goals (each task that is
/// not skipped counted once, in a goal tree with distinct ids).
pub proof fn law_progress_adds_up_over_sub_goals(goals: Seq<Goal>, tasks: Seq<Task>, g: int)
    requires
        goal_ids_distinct(goals),
        goal_forest(goals),
        0 <= g < goals.len(),
    ensures
        plan_total(goals, tasks, g) == own_totals(goals, tasks, g).0 + children_totals(
            goals,
            tasks,
            g,
            goals.len() as int,
        ).0,
        actual_total(goals, tasks, g) == own_totals(goals, tasks, g).1 + children_totals(
            goals,
            tasks,
            g,
            goals.len() as int,
        ).1,
    decreases tasks.len(),
{
    if tasks.len() == 0 {
        lemma_children_totals_empty(goals, tasks, g, goals.len() as int);
    } else {
        let s = tasks.drop_last();
        let t = tasks.last();
        law_progress_adds_up_over_sub_goals(goals, s, g);
        lemma_children_totals_step(goals, tasks, g, goals.len() as int);
        lemma_counting_children_value(goals, g, t, goals.len() as int);
        lemma_counts_split(goals, g, t);
    }
}

proof fn lemma_children_totals_empty(goals: Seq<Goal>, tasks: Seq<Task>, g: int, upto: int)
    requires
        tasks.len() == 0,
    ensures
        children_totals(goals, tasks, g, upto) == (0int, 0int),
    decreases upto,
{
    if upto > 0 {
        lemma_children_totals_empty(goals, tasks, g, upto - 1);
    }
}


/// The write replaces a stored goal or task with the same id.
pub open spec fn replaces(op: ImportOp) -> bool {
    match op {
        ImportOp::WriteGoal { upsert, .. } => upsert,
        ImportOp::WriteTask { upsert, .. } => upsert,
        _ => false,
    }
}

/// The write puts a goal or a task under an id among `goal_ids` or `task_ids`.
pub open spec fn writes_over(op: ImportOp, goal_ids: Seq<Seq<char>>, task_ids: Seq<Seq<char>>) -> bool {
    match op {
        ImportOp::WriteGoal { id, .. } => goal_ids.contains(id@),
        ImportOp::WriteTask { id, .. } => task_ids.contains(id@),
        _ => false,
    }
}

proof fn lemma_goal_phase_facts(ids0: Seq<Seq<char>>, goals: Seq<Goal>, mode: Seq<char>, fresh: Seq<String>, n: int)
    requires
        0 <= n <= goals.len(),
    ensures
        ({
            let s = goal_phase(ids0, goals, mode, fresh, n);
            &&& s.2 >= 0 && s.3 >= 0 && s.2 + s.3 == n
            &&& forall|x: Seq<char>| ids0.contains(x) ==> #[trigger] s.0.contains(x)
            &&& forall|i: int| 0 <= i < s.5.len() ==> (#[trigger] s.5[i]) is WriteGoal
            &&& mode != "overwrite"@ ==> forall|i: int| 0 <= i < s.5.len() ==> !replaces(#[trigger] s.5[i])
            &&& mode == "skip"@ ==> forall|i: int| 0 <= i < s.5.len() ==> !writes_over(#[trigger] s.5[i], ids0, seq![])
        }),
    decreases n,
{
    if n > 0 {
        lemma_goal_phase_facts(ids0, goals, mode, fresh, n - 1);
        let s = goal_phase(ids0, goals, mode, fresh, n - 1);
        let g = goals[n - 1];
        let r = goal_phase(ids0, goals, mode, fresh, n);
        assert forall|x: Seq<char>| ids0.contains(x) implies #[trigger] r.0.contains(x) by {
            assert(s.0.contains(x));
            if r.0 != s.0 {
                let k = choose|k: int| 0 <= k < s.0.len() && s.0[k] == x;
                assert(r.0[k] == x);
            }
        }
        if !s.0.contains(g.id@) {
            assert(!ids0.contains(g.id@));
            assert forall|i: int| 0 <= i < r.5.len() implies (#[trigger] r.5[i]) is WriteGoal && (mode != "overwrite"@
                ==> !replaces(r.5[i])) && (mode == "skip"@ ==> !writes_over(r.5[i], ids0, seq![])) by {
                if i < s.5.len() {
                    assert(r.5[i] == s.5[i]);
                }
            }
        } else {
            assert forall|i: int| 0 <= i < r.5.len() implies (#[trigger] r.5[i]) is WriteGoal && (mode != "overwrite"@
                ==> !replaces(r.5[i])) && (mode == "skip"@ ==> !writes_over(r.5[i], ids0, seq![])) by {
                if i < s.5.len() {
                    assert(r.5[i] == s.5[i]);
                }
            }
        }
    }
}

proof fn lemma_task_phase_facts(
    ids0: Seq<Seq<char>>,
    tasks: Seq<Task>,
    gmap: Seq<(Seq<char>, String)>,
    mode: Seq<char>,
    fresh: Seq<String>,
    used0: int,
    n: int,
)
    requires
        0 <= n <= tasks.len(),
    ensures
        ({
            let s = task_phase(ids0, tasks, gmap, mode, fresh, used0, n);
            &&& s.2 >= 0 && s.3 >= 0 && s.2 + s.3 == n
            &&& forall|x: Seq<char>| ids0.contains(x) ==> #[trigger] s.0.contains(x)
            &&& forall|i: int| 0 <= i < s.5.len() ==> (#[trigger] s.5[i]) is WriteTask
            &&& mode != "overwrite"@ ==> forall|i: int| 0 <= i < s.5.len() ==> !replaces(#[trigger] s.5[i])
            &&& mode == "skip"@ ==> forall|i: int| 0 <= i < s.5.len() ==> !writes_over(#[trigger] s.5[i], seq![], ids0)
        }),
    decreases n,
{
    if n > 0 {
        lemma_task_phase_facts(ids0, tasks, gmap, mode, fresh, used0, n - 1);
        let s = task_phase(ids0, tasks, gmap, mode, fresh, used0, n - 1);
        let t = tasks[n - 1];
        let r = task_phase(ids0, tasks, gmap, mode, fresh, used0, n);
        assert forall|x: Seq<char>| ids0.contains(x) implies #[trigger] r.0.contains(x) by {
            assert(s.0.contains(x));
            if r.0 != s.0 {
                let k = choose|k: int| 0 <= k < s.0.len() && s.0[k] == x;
                assert(r.0[k] == x);
            }
        }
        if !s.0.contains(t.id@) {
            assert(!ids0.contains(t.id@));
        }
        assert forall|i: int| 0 <= i < r.5.len() implies (#[trigger] r.5[i]) is WriteTask && (mode != "overwrite"@
            ==> !replaces(r.5[i])) && (mode == "skip"@ ==> !writes_over(r.5[i], seq![], ids0)) by {
            if i < s.5.len() {
                assert(r.5[i] == s.5[i]);
            }
        }
    }
}

proof fn lemma_dep_phase_counts(
    pairs0: Seq<(Seq<char>, Seq<char>)>,
    deps: Seq<TaskDependency>,
    tids: Seq<Seq<char>>,
    tmap: Seq<(Seq<char>, String)>,
    mode: Seq<char>,
    fresh: Seq<String>,
    used0: int,
    n: int,
)
    requires
        0 <= n <= deps.len(),
    ensures
        ({
            let s = dep_phase(pairs0, deps, tids, tmap, mode, fresh, used0, n);
            &&& s.1 >= 0 && s.2 >= 0 && s.1 + s.2 == n
            &&& forall|i: int| 0 <= i < s.4.len() ==> (#[trigger] s.4[i]) is WriteDependency
        }),
    decreases n,
{
    if n > 0 {
        lemma_dep_phase_counts(pairs0, deps, tids, tmap, mode, fresh, used0, n - 1);
        let s = dep_phase(pairs0, deps, tids, tmap, mode, fresh, used0, n - 1);
        let r = dep_phase(pairs0, deps, tids, tmap, mode, fresh, used0, n);
        assert forall|i: int| 0 <= i < r.4.len() implies (#[trigger] r.4[i]) is WriteDependency by {
            if i < s.4.len() {
                assert(r.4[i] == s.4[i]);
            }
        }
    }
}

/// An import accounts for every goal, task and dependency of the backup:
/// each is either imported or skipped.
pub proof fn law_import_accounts_for_every_record(
    stored: StoredIds,
    data: ExportData,
    mode: Seq<char>,
    fresh: Seq<String>,
    plan: ImportPlan,
)
    requires
        import_plan_ok(stored, data, mode, fresh, plan),
        data.goals@.len() <= usize::MAX,
        data.tasks@.len() <= usize::MAX,
        data.task_dependencies@.len() <= usize::MAX,
    ensures
        plan.result.goals_imported + plan.result.goals_skipped == data.goals@.len(),
        plan.result.tasks_imported + plan.result.tasks_skipped == data.tasks@.len(),
        plan.result.dependencies_imported + plan.result.dependencies_skipped == data.task_dependencies@.len(),
{
    let g = goal_phase(views(stored.goal_ids@), data.goals@, mode, fresh, data.goals@.len() as int);
    let t = task_phase(views(stored.task_ids@), data.tasks@, g.1, mode, fresh, g.4, data.tasks@.len() as int);
    lemma_goal_phase_facts(views(stored.goal_ids@), data.goals@, mode, fresh, data.goals@.len() as int);
    lemma_task_phase_facts(views(stored.task_ids@), data.tasks@, g.1, mode, fresh, g.4, data.tasks@.len() as int);
    lemma_dep_phase_counts(
        pair_views(stored.dependency_pairs@),
        data.task_dependencies@,
        t.0,
        t.1,
        mode,
        fresh,
        t.4,
        data.task_dependencies@.len() as int,
    );
}


proof fn lemma_enc_phase_ops(ids0: Seq<Seq<char>>, encs: Seq<Encouragement>, mode: Seq<char>, fresh: Seq<String>, used0: int, n: int)
    requires
        0 <= n <= encs.len(),
    ensures
        forall|i: int|
            0 <= i < enc_phase(ids0, encs, mode, fresh, used0, n).3.len() ==> (#[trigger] enc_phase(
                ids0,
                encs,
                mode,
                fresh,
                used0,
                n,
            ).3[i]) is WriteEncouragement,
    decreases n,
{
    if n > 0 {
        lemma_enc_phase_ops(ids0, encs, mode, fresh, used0, n - 1);
        let s = enc_phase(ids0, encs, mode, fresh, used0, n - 1).3;
        let r = enc_phase(ids0, encs, mode, fresh, used0, n).3;
        assert forall|i: int| 0 <= i < r.len() implies (#[trigger] r[i]) is WriteEncouragement by {
            if i < s.len() {
                assert(r[i] == s[i]);
            }
        }
    }
}

proof fn lemma_setting_phase_ops(settings: Seq<Setting>, n: int)
    requires
        0 <= n <= settings.len(),
    ensures
        forall|i: int| 0 <= i < setting_phase(settings, n).1.len() ==> (#[trigger] setting_phase(settings, n).1[i]) is WriteSetting,
    decreases n,
{
    if n > 0 {
        lemma_setting_phase_ops(settings, n - 1);
        let s = setting_phase(settings, n - 1).1;
        let r = setting_phase(settings, n).1;
        assert forall|i: int| 0 <= i < r.len() implies (#[trigger] r[i]) is WriteSetting by {
            if i < s.len() {
                assert(r[i] == s[i]);
            }
        }
    }
}

/// Only an import in `overwrite` mode replaces stored goals or tasks; in
/// `skip` mode no goal or task is written under an id already stored.
pub proof fn law_import_replaces_only_when_overwriting(
    stored: StoredIds,
    data: ExportData,
    mode: Seq<char>,
    fresh: Seq<String>,
    plan: ImportPlan,
)
    requires
        import_plan_ok(stored, data, mode, fresh, plan),
    ensures
        mode != "overwrite"@ ==> forall|i: int| 0 <= i < plan.ops@.len() ==> !replaces(#[trigger] plan.ops@[i]),
        mode == "skip"@ ==> forall|i: int|
            0 <= i < plan.ops@.len() ==> !writes_over(
                #[trigger] plan.ops@[i],
                views(stored.goal_ids@),
                views(stored.task_ids@),
            ),
{
    let g = goal_phase(views(stored.goal_ids@), data.goals@, mode, fresh, data.goals@.len() as int);
    let t = task_phase(views(stored.task_ids@), data.tasks@, g.1, mode, fresh, g.4, data.tasks@.len() as int);
    let d = dep_phase(
        pair_views(stored.dependency_pairs@),
        data.task_dependencies@,
        t.0,
        t.1,
        mode,
        fresh,
        t.4,
        data.task_dependencies@.len() as int,
    );
    let e = enc_phase(views(stored.encouragement_ids@), data.encouragements@, mode, fresh, d.3, data.encouragements@.len() as int);
    let st = setting_phase(data.settings@, data.settings@.len() as int);
    lemma_goal_phase_facts(views(stored.goal_ids@), data.goals@, mode, fresh, data.goals@.len() as int);
    lemma_task_phase_facts(views(stored.task_ids@), data.tasks@, g.1, mode, fresh, g.4, data.tasks@.len() as int);
    lemma_dep_phase_counts(
        pair_views(stored.dependency_pairs@),
        data.task_dependencies@,
        t.0,
        t.1,
        mode,
        fresh,
        t.4,
        data.task_dependencies@.len() as int,
    );
    lemma_enc_phase_ops(views(stored.encouragement_ids@), data.encouragements@, mode, fresh, d.3, data.encouragements@.len() as int);
    lemma_setting_phase_ops(data.settings@, data.settings@.len() as int);
    let ops = plan.ops@;
    assert(ops == g.5 + t.5 + d.4 + e.3 + st.1);
    let l1 = g.5.len() as int;
    let l2 = l1 + t.5.len();
    let l3 = l2 + d.4.len();
    let l4 = l3 + e.3.len();
    assert forall|i: int| 0 <= i < ops.len() implies (mode != "overwrite"@ ==> !replaces(#[trigger] ops[i])) && (mode
        == "skip"@ ==> !writes_over(ops[i], views(stored.goal_ids@), views(stored.task_ids@))) by {
        if i < l1 {
            assert(ops[i] == g.5[i]);
            assert(g.5[i] is WriteGoal);
        } else if i < l2 {
            assert(ops[i] == t.5[i - l1]);
            assert(t.5[i - l1] is WriteTask);
        } else if i < l3 {
            assert(ops[i] == d.4[i - l2]);
            assert(d.4[i - l2] is WriteDependency);
        } else if i < l4 {
            assert(ops[i] == e.3[i - l3]);
            assert(e.3[i - l3] is WriteEncouragement);
        } else {
            assert(ops[i] == st.1[i - l4]);
            assert(st.1[i - l4] is WriteSetting);
        }
    }
}


/// A re-planning preview never changes an amount set by hand: every line
/// marked as kept shows its old amount as the new one.
pub proof fn law_replan_keeps_amounts_set_by_hand(
    p: ReplanPreview,
    goal: Goal,
    unfinished: Seq<Task>,
    deps: Seq<DepList>,
    days: int,
    left: int,
)
    requires
        preview_ok(p, goal, unfinished, deps, days, left),
    ensures
        forall|k: int|
            0 <= k < p.items@.len() && (#[trigger] p.items@[k]).retained ==> p.items@[k].new_plan_qty
                == p.items@[k].old_plan_qty,
{
    if auto_tasks(unfinished).len() > 0 {
        let sorted = choose|sorted: Seq<Task>|
            #[trigger] crate::dependency::topo_result(auto_tasks(unfinished), deps, sorted) && items_in_date_order(
                p.items@,
                replan_lines(kept_tasks(unfinished), sorted, p.daily_base as int, p.remainder as int),
            );
        let lines = replan_lines(kept_tasks(unfinished), sorted, p.daily_base as int, p.remainder as int);
        let kept = kept_tasks(unfinished);
        let perm = choose|perm: Seq<usize>|
            #[trigger] crate::textorder::sorted_positions(crate::replan::line_keys(lines), perm) && perm.no_duplicates()
                && p.items@.len() == lines.len() && forall|k: int|
                0 <= k < p.items@.len() ==> item_of(
                    #[trigger] p.items@[k],
                    lines[perm[k] as int].0,
                    lines[perm[k] as int].1,
                    lines[perm[k] as int].2,
                );
        assert forall|k: int| 0 <= k < p.items@.len() && (#[trigger] p.items@[k]).retained implies p.items@[k].new_plan_qty
            == p.items@[k].old_plan_qty by {
            let j = perm[k] as int;
            assert(item_of(p.items@[k], lines[j].0, lines[j].1, lines[j].2));
            assert(0 <= j < lines.len()) by {
                assert(crate::textorder::sorted_positions(crate::replan::line_keys(lines), perm));
                assert(crate::replan::line_keys(lines).len() == lines.len());
            }
            if j >= kept.len() {
                assert(lines[j].2 == false);
            } else {
                assert(lines[j] == (kept[j], kept[j].plan_qty as int, true));
            }
        }
    }
}


/// The value first given to `key` in a list of (key, value) texts.
spec fn first_value(s: Seq<(Seq<char>, Seq<char>)>, key: Seq<char>) -> Option<Seq<char>>
    decreases s.len(),
{
    if s.len() == 0 {
        None
    } else if s[0].0 == key {
        Some(s[0].1)
    } else {
        first_value(s.drop_first(), key)
    }
}

proof fn lemma_first_value_concat(a: Seq<(Seq<char>, Seq<char>)>, b: Seq<(Seq<char>, Seq<char>)>, key: Seq<char>)
    ensures
        first_value(a + b, key) == if first_value(a, key) is Some {
            first_value(a, key)
        } else {
            first_value(b, key)
        },
    decreases a.len(),
{
    if a.len() > 0 {
        assert((a + b).drop_first() =~= a.drop_first() + b);
        lemma_first_value_concat(a.drop_first(), b, key);
    } else {
        assert(a + b =~= b);
    }
}

proof fn lemma_setting_value_views(w: Seq<Setting>, key: Seq<char>)
    ensures
        match setting_value(w, key) {
            Some(v) => first_value(row_views(w), key) == Some(v@),
            None => first_value(row_views(w), key) is None,
        },
    decreases w.len(),
{
    if w.len() > 0 {
        assert(row_views(w).drop_first() =~= row_views(w.drop_first()));
        lemma_setting_value_views(w.drop_first(), key);
    }
}

proof fn lemma_setting_value_concat(w: Seq<Setting>, rows: Seq<Setting>, key: Seq<char>)
    ensures
        setting_value(w + rows, key) == if setting_value(w, key) is Some {
            setting_value(w, key)
        } else {
            setting_value(rows, key)
        },
    decreases w.len(),
{
    if w.len() > 0 {
        assert((w + rows).drop_first() =~= w.drop_first() + rows);
        lemma_setting_value_concat(w.drop_first(), rows, key);
    } else {
        assert(w + rows =~= rows);
    }
}

proof fn lemma_setting_keys_distinct()
    ensures
        "encouragement_enabled"@ != "encouragement_frequency"@,
        "encouragement_enabled"@ != "encouragement_style"@,
        "encouragement_enabled"@ != "encouragement_celebration_animation"@,
        "encouragement_enabled"@ != "encouragement_emoji_enabled"@,
        "encouragement_frequency"@ != "encouragement_style"@,
        "encouragement_frequency"@ != "encouragement_celebration_animation"@,
        "encouragement_frequency"@ != "encouragement_emoji_enabled"@,
        "encouragement_style"@ != "encouragement_celebration_animation"@,
        "encouragement_style"@ != "encouragement_emoji_enabled"@,
        "encouragement_celebration_animation"@ != "encouragement_emoji_enabled"@,
        "true"@ != "false"@,
{
    reveal_strlit("encouragement_enabled");
    reveal_strlit("encouragement_frequency");
    reveal_strlit("encouragement_style");
    reveal_strlit("encouragement_celebration_animation");
    reveal_strlit("encouragement_emoji_enabled");
    reveal_strlit("true");
    reveal_strlit("false");
    assert("encouragement_enabled"@[14] != "encouragement_frequency"@[14]);
    assert("encouragement_enabled"@[14] != "encouragement_style"@[14]);
    assert("encouragement_enabled"@[14] != "encouragement_celebration_animation"@[14]);
    assert("encouragement_enabled"@[15] != "encouragement_emoji_enabled"@[15]);
    assert("encouragement_frequency"@[14] != "encouragement_style"@[14]);
    assert("encouragement_frequency"@[14] != "encouragement_celebration_animation"@[14]);
    assert("encouragement_frequency"@[14] != "encouragement_emoji_enabled"@[14]);
    assert("encouragement_style"@[14] != "encouragement_celebration_animation"@[14]);
    assert("encouragement_style"@[14] != "encouragement_emoji_enabled"@[14]);
    assert("encouragement_celebration_animation"@[14] != "encouragement_emoji_enabled"@[14]);
    assert("true"@.len() != "false"@.len());
}

/// What a key reads after the written rows `w` are put in front of the
/// stored rows: the written value when the key was written, the stored one
/// otherwise.
proof fn lemma_read_after_write(w: Seq<Setting>, rows: Seq<Setting>, key: Seq<char>, written: Option<Seq<char>>)
    requires
        first_value(row_views(w), key) == written,
    ensures
        written is Some ==> setting_value(w + rows, key) is Some && setting_value(w + rows, key)->0@ == written->0,
        written is None ==> setting_value(w + rows, key) == setting_value(rows, key),
{
    lemma_setting_value_views(w, key);
    lemma_setting_value_concat(w, rows, key);
}

/// Reading the encouragement preferences gives back what an update wrote:
/// once the rows that `update_encouragement_settings` gives (`w`) take the
/// place of the stored rows with the same keys (here: stand in front of
/// them), each preference given in the update reads as given, and each
/// preference not given reads as before.
pub proof fn law_settings_read_back_what_was_written(
    input: UpdateEncouragementSettingsInput,
    w: Seq<Setting>,
    rows: Seq<Setting>,
)
    requires
        row_views(w) == update_rows(input),
    ensures
        ({
            let after = w + rows;
            &&& input.enabled is Some ==> flag_value(setting_value(after, "encouragement_enabled"@), true)
                == input.enabled->0
            &&& input.frequency is Some ==> text_value(setting_value(after, "encouragement_frequency"@), "normal"@)
                == input.frequency->0@
            &&& input.style is Some ==> text_value(setting_value(after, "encouragement_style"@), "warm"@)
                == input.style->0@
            &&& input.celebration_animation is Some ==> flag_value(
                setting_value(after, "encouragement_celebration_animation"@),
                true,
            ) == input.celebration_animation->0
            &&& input.emoji_enabled is Some ==> flag_value(setting_value(after, "encouragement_emoji_enabled"@), true)
                == input.emoji_enabled->0
            &&& input.enabled is None ==> setting_value(after, "encouragement_enabled"@) == setting_value(
                rows,
                "encouragement_enabled"@,
            )
            &&& input.frequency is None ==> setting_value(after, "encouragement_frequency"@) == setting_value(
                rows,
                "encouragement_frequency"@,
            )
            &&& input.style is None ==> setting_value(after, "encouragement_style"@) == setting_value(
                rows,
                "encouragement_style"@,
            )
            &&& input.celebration_animation is None ==> setting_value(
                after,
                "encouragement_celebration_animation"@,
            ) == setting_value(rows, "encouragement_celebration_animation"@)
            &&& input.emoji_enabled is None ==> setting_value(after, "encouragement_emoji_enabled"@) == setting_value(
                rows,
                "encouragement_emoji_enabled"@,
            )
        }),
{
    lemma_setting_keys_distinct();
    let ke = "encouragement_enabled"@;
    let kf = "encouragement_frequency"@;
    let ks = "encouragement_style"@;
    let kc = "encouragement_celebration_animation"@;
    let km = "encouragement_emoji_enabled"@;
    let a = match input.enabled {
        Some(b) => seq![(ke, flag_text(b))],
        None => Seq::empty(),
    };
    let b = match input.frequency {
        Some(f) => seq![(kf, f@)],
        None => Seq::empty(),
    };
    let c = match input.style {
        Some(x) => seq![(ks, x@)],
        None => Seq::empty(),
    };
    let d = match input.celebration_animation {
        Some(x) => seq![(kc, flag_text(x))],
        None => Seq::empty(),
    };
    let e = match input.emoji_enabled {
        Some(x) => seq![(km, flag_text(x))],
        None => Seq::empty(),
    };
    assert(update_rows(input) == a + b + c + d + e);
    let all = a + b + c + d + e;
    let keys = seq![ke, kf, ks, kc, km];
    assert forall|i: int| 0 <= i < 5 implies first_value(all, #[trigger] keys[i]) == (if i == 0 {
        first_value(a, ke)
    } else if i == 1 {
        first_value(b, kf)
    } else if i == 2 {
        first_value(c, ks)
    } else if i == 3 {
        first_value(d, kc)
    } else {
        first_value(e, km)
    }) by {
        let k = keys[i];
        lemma_first_value_concat(a + b + c + d, e, k);
        lemma_first_value_concat(a + b + c, d, k);
        lemma_first_value_concat(a + b, c, k);
        lemma_first_value_concat(a, b, k);
        reveal_with_fuel(first_value, 2);
    }
    assert(keys[0] == ke && keys[1] == kf && keys[2] == ks && keys[3] == kc && keys[4] == km);
    reveal_with_fuel(first_value, 2);
    lemma_read_after_write(w, rows, ke, first_value(a, ke));
    lemma_read_after_write(w, rows, kf, first_value(b, kf));
    lemma_read_after_write(w, rows, ks, first_value(c, ks));
    lemma_read_after_write(w, rows, kc, first_value(d, kc));
    lemma_read_after_write(w, rows, km, first_value(e, km));
    reveal_strlit("true");
    reveal_strlit("false");
}

} // verus!
