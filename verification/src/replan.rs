//! Re-planning a goal: spreading what is left of its total over its
//! unfinished automatic tasks, keeping the amounts that were set by hand.

use vstd::prelude::*;
use vstd::string::*;

use crate::dependency::{ids_distinct, keys_distinct, topo_result, topo_sort_by_dependency, DepList};
use crate::error::{is_business_err, is_param_err, AppError, AppResult};
use crate::models::{Goal, ReplanPreview, ReplanPreviewItem, Task};
use crate::split::{days_short_error, even_base, even_remainder};
use crate::textorder::{sort_positions_by_text, sorted_positions, views};
use crate::util::{int_text, parse_ymd, qty_text, qty_to_text, spec_parse_ymd, valid_day};

verus! {

/// The tasks whose amount is spread again (not set by hand).
pub open spec fn auto_tasks(s: Seq<Task>) -> Seq<Task> {
    s.filter(|t: Task| t.is_manual == 0)
}

/// The tasks whose amount was set by hand and is kept.
pub open spec fn kept_tasks(s: Seq<Task>) -> Seq<Task> {
    s.filter(|t: Task| t.is_manual == 1)
}

/// The sum of the planned amounts of `s`.
pub open spec fn plan_sum(s: Seq<Task>) -> int
    decreases s.len(),
{
    if s.len() == 0 {
        0
    } else {
        plan_sum(s.drop_last()) + s.last().plan_qty
    }
}

proof fn lemma_filters_push(s: Seq<Task>, x: Task)
    ensures
        auto_tasks(s.push(x)) == (if x.is_manual == 0 {
            auto_tasks(s).push(x)
        } else {
            auto_tasks(s)
        }),
        kept_tasks(s.push(x)) == (if x.is_manual == 1 {
            kept_tasks(s).push(x)
        } else {
            kept_tasks(s)
        }),
{
    reveal(Seq::filter);
    assert(s.push(x).drop_last() =~= s);
}

/// The planned day of a task as text; no day is the empty text.
pub open spec fn date_text(d: Option<String>) -> Seq<char> {
    match d {
        Some(s) => s@,
        None => Seq::<char>::empty(),
    }
}

/// `i` is the preview line of task `t` with new amount `new_qty`.
pub open spec fn item_of(i: ReplanPreviewItem, t: Task, new_qty: int, retained: bool) -> bool {
    &&& i.task_id@ == t.id@
    &&& i.name@ == t.name@
    &&& i.plan_date@ == date_text(t.plan_date)
    &&& i.old_plan_qty == t.plan_qty
    &&& i.new_plan_qty == new_qty
    &&& i.retained == retained
}

/// The lines of a preview before they are put in date order: first the
/// tasks set by hand with their own amounts, then the re-planned tasks in
/// dependency order, the first `rem` of them with one unit more.
pub open spec fn replan_lines(kept: Seq<Task>, sorted: Seq<Task>, base: int, rem: int) -> Seq<(Task, int, bool)> {
    kept.map_values(|t: Task| (t, t.plan_qty as int, true)) + sorted.map(
        |k: int, t: Task|
            (
                t,
                if k < rem {
                    base + 100
                } else {
                    base
                },
                false,
            ),
    )
}

/// The planned days of the lines, as texts.
pub open spec fn line_keys(lines: Seq<(Task, int, bool)>) -> Seq<Seq<char>> {
    lines.map_values(|l: (Task, int, bool)| date_text(l.0.plan_date))
}

/// `items` are `lines` sorted by planned day (as text), lines with the same
/// day kept in their order.
pub open spec fn items_in_date_order(items: Seq<ReplanPreviewItem>, lines: Seq<(Task, int, bool)>) -> bool {
    exists|p: Seq<usize>|
        #[trigger] sorted_positions(line_keys(lines), p) && p.no_duplicates() && items.len() == lines.len()
            && forall|k: int|
            0 <= k < items.len() ==> item_of(
                #[trigger] items[k],
                lines[p[k] as int].0,
                lines[p[k] as int].1,
                lines[p[k] as int].2,
            )
}

/// The message of a negative amount left to distribute.
pub open spec fn negative_left_text(q: int) -> Seq<char> {
    "剩余待分配总量为负("@ + qty_text(q) + ")，可能已完成量超过目标总量，无法重新规划"@
}

/// A preview of re-planning `unfinished` with `days` days and `left` to
/// distribute.
pub open spec fn preview_ok(
    p: ReplanPreview,
    goal: Goal,
    unfinished: Seq<Task>,
    deps: Seq<DepList>,
    days: int,
    left: int,
) -> bool {
    let auto = auto_tasks(unfinished);
    &&& p.goal_id@ == goal.id@
    &&& p.goal_name@ == goal.name@
    &&& p.remaining_days == days
    &&& p.remaining_qty == left
    &&& auto.len() == 0 ==> {
        &&& p.daily_base == 0
        &&& p.remainder == 0
        &&& p.items@.len() == unfinished.len()
        &&& forall|k: int|
            0 <= k < unfinished.len() ==> item_of(
                #[trigger] p.items@[k],
                unfinished[k],
                unfinished[k].plan_qty as int,
                unfinished[k].is_manual == 1,
            )
    }
    &&& auto.len() > 0 ==> {
        &&& p.daily_base == even_base(left, auto.len() as int)
        &&& p.remainder == even_remainder(left, auto.len() as int)
        &&& exists|sorted: Seq<Task>|
            #[trigger] topo_result(auto, deps, sorted) && items_in_date_order(
                p.items@,
                replan_lines(kept_tasks(unfinished), sorted, p.daily_base as int, p.remainder as int),
            )
    }
}

/// What `build_replan_preview` gives.
pub open spec fn replan_outcome(
    goal: Goal,
    unfinished: Seq<Task>,
    today: int,
    deps: Seq<DepList>,
    r: AppResult<ReplanPreview>,
) -> bool {
    &&& goal.deadline is None ==> r is Err && is_param_err(r->Err_0, "目标未设置截止日期，无法重新规划"@)
    &&& goal.deadline is Some && spec_parse_ymd(goal.deadline->0@) is Err ==> r is Err && is_param_err(
        r->Err_0,
        "截止日期格式错误: "@ + spec_parse_ymd(goal.deadline->0@)->Err_0,
    )
    &&& goal.deadline is Some && spec_parse_ymd(goal.deadline->0@) is Ok ==> ({
        let days = spec_parse_ymd(goal.deadline->0@)->Ok_0 - today;
        let left = goal.total_qty - plan_sum(kept_tasks(unfinished));
        &&& days < 1 ==> r is Err && is_business_err(
            r->Err_0,
            "截止日期剩余天数不足（"@ + int_text(days) + "天），至少需要留出1天"@,
        )
        &&& days >= 1 && left < 0 ==> r is Err && is_business_err(r->Err_0, negative_left_text(left))
        &&& days >= 1 && left >= 0 ==> r is Ok && preview_ok(r->Ok_0, goal, unfinished, deps, days, left)
    })
}

fn date_or_empty(d: &Option<String>) -> (r: String)
    ensures
        r@ == date_text(*d),
{
    match d {
        Some(s) => s.clone(),
        None => String::new(),
    }
}

fn make_item(t: &Task, new_qty: i64, retained: bool) -> (i: ReplanPreviewItem)
    ensures
        item_of(i, *t, new_qty as int, retained),
{
    ReplanPreviewItem {
        task_id: t.id.clone(),
        name: t.name.clone(),
        plan_date: date_or_empty(&t.plan_date),
        old_plan_qty: t.plan_qty,
        new_plan_qty: new_qty,
        retained,
    }
}

fn copy_item(i: &ReplanPreviewItem) -> (r: ReplanPreviewItem)
    ensures
        r == *i,
{
    ReplanPreviewItem {
        task_id: i.task_id.clone(),
        name: i.name.clone(),
        plan_date: i.plan_date.clone(),
        old_plan_qty: i.old_plan_qty,
        new_plan_qty: i.new_plan_qty,
        retained: i.retained,
    }
}

/// Previews re-planning a goal whose unfinished tasks are `unfinished`.
///
/// What is left of the goal's total once the amounts set by hand are taken
/// out is spread over the automatic tasks: each gets the same amount in whole
/// units, and the units left over go one each to the first tasks in
/// dependency order (prerequisites first). Tasks set by hand keep their
/// amounts. The lines come in order of planned day.
pub fn build_replan_preview(goal: &Goal, unfinished: &Vec<Task>, today: i32, deps: &Vec<DepList>) -> (r: AppResult<
    ReplanPreview,
>)
    requires
        valid_day(today as int),
        ids_distinct(unfinished@),
        keys_distinct(deps@),
        i64::MIN <= goal.total_qty - plan_sum(kept_tasks(unfinished@)) <= i64::MAX,
    ensures
        replan_outcome(*goal, unfinished@, today as int, deps@, r),
{
    let deadline_str = match &goal.deadline {
        Some(s) => s,
        None => {
            return Err(AppError::Param(String::from_str("目标未设置截止日期，无法重新规划")));
        },
    };
    let deadline = match parse_ymd(deadline_str.as_str()) {
        Ok(d) => d,
        Err(e) => {
            return Err(AppError::Param(String::from_str("截止日期格式错误: ").concat(e.as_str())));
        },
    };
    let days: i64 = (deadline as i64) - (today as i64);
    if days < 1 {
        return Err(days_short_error(days));
    }
    // the automatic tasks and the tasks set by hand
    let n = unfinished.len();
    let mut auto: Vec<Task> = Vec::new();
    let mut kept: Vec<Task> = Vec::new();
    let ghost mut aidx: Seq<int> = Seq::empty();
    let mut sum: i128 = 0;
    let mut k: usize = 0;
    while k < n
        invariant
            n == unfinished@.len(),
            k <= n,
            ids_distinct(unfinished@),
            auto@ == auto_tasks(unfinished@.subrange(0, k as int)),
            kept@ == kept_tasks(unfinished@.subrange(0, k as int)),
            sum == plan_sum(kept@),
            kept@.len() <= k,
            -(kept@.len() as int) * 0x8000_0000_0000_0000int <= sum <= (kept@.len() as int) * 0x7fff_ffff_ffff_ffffint,
            aidx.len() == auto@.len(),
            forall|a: int| 0 <= a < aidx.len() ==> 0 <= #[trigger] aidx[a] < k && auto@[a] == unfinished@[aidx[a]],
            forall|a: int, b: int| 0 <= a < b < aidx.len() ==> #[trigger] aidx[a] < #[trigger] aidx[b],
        decreases n - k,
    {
        let t = &unfinished[k];
        proof {
            lemma_filters_push(unfinished@.subrange(0, k as int), unfinished@[k as int]);
            assert(unfinished@.subrange(0, k as int + 1) == unfinished@.subrange(0, k as int).push(unfinished@[k as int]));
        }
        if t.is_manual == 0 {
            auto.push(t.copy());
            proof {
                aidx = aidx.push(k as int);
            }
        } else if t.is_manual == 1 {
            let ghost old_kept = kept@;
            sum = sum + (t.plan_qty as i128);
            kept.push(t.copy());
            proof {
                assert(kept@.drop_last() == old_kept);
            }
        }
        k = k + 1;
    }
    proof {
        assert(unfinished@.subrange(0, n as int) == unfinished@);
        assert forall|a: int, b: int| 0 <= a < auto@.len() && 0 <= b < auto@.len() && a != b implies #[trigger] auto@[a].id@
            != #[trigger] auto@[b].id@ by {
            if a < b {
                assert(aidx[a] < aidx[b]);
            } else {
                assert(aidx[b] < aidx[a]);
            }
        }
    }
    let total: i128 = goal.total_qty as i128;
    let left128: i128 = total - sum;
    let left: i64 = left128 as i64;
    if left < 0 {
        return Err(
            AppError::Business(
                String::from_str("剩余待分配总量为负(").concat(qty_to_text(left).as_str()).concat(
                    ")，可能已完成量超过目标总量，无法重新规划",
                ),
            ),
        );
    }
    let na = auto.len();
    if na == 0 {
        let mut items: Vec<ReplanPreviewItem> = Vec::new();
        let mut k: usize = 0;
        while k < n
            invariant
                n == unfinished@.len(),
                k <= n,
                items@.len() == k,
                forall|q: int|
                    0 <= q < k ==> item_of(
                        #[trigger] items@[q],
                        unfinished@[q],
                        unfinished@[q].plan_qty as int,
                        unfinished@[q].is_manual == 1,
                    ),
            decreases n - k,
        {
            items.push(make_item(&unfinished[k], unfinished[k].plan_qty, unfinished[k].is_manual == 1));
            k = k + 1;
        }
        return Ok(
            ReplanPreview {
                goal_id: goal.id.clone(),
                goal_name: goal.name.clone(),
                remaining_days: days,
                remaining_qty: left,
                daily_base: 0,
                remainder: 0,
                items,
            },
        );
    }
    // the even share of each automatic task
    let nn: i128 = na as i128;
    let d: i128 = 100 * nn;
    let w: i128 = left128 / d;
    proof {
        assert(0 <= w && w * d <= left128 && left128 - w * d < d) by (nonlinear_arith)
            requires
                left128 >= 0,
                d >= 100,
                w as int == left128 as int / d as int,
        ;
        assert(w * 100 * nn == w * d) by (nonlinear_arith)
            requires
                d == 100 * nn,
        ;
    }
    let base128: i128 = w * 100;
    let rem128: i128 = (left128 - base128 * nn + 50) / 100;
    proof {
        assert(base128 == even_base(left as int, na as int));
        assert(rem128 == even_remainder(left as int, na as int));
        assert(base128 * nn >= base128) by (nonlinear_arith)
            requires
                base128 >= 0,
                nn >= 1,
        ;
        if rem128 >= 1 {
            assert(base128 + 100 <= i64::MAX) by (nonlinear_arith)
                requires
                    base128 == w * 100,
                    base128 + 50 <= left128,
                    left128 <= i64::MAX,
            ;
        }
    }
    let base: i64 = base128 as i64;
    let rem: i64 = rem128 as i64;
    let sorted = topo_sort_by_dependency(&auto, deps);
    proof {
        let p = choose|p: Seq<int>| crate::dependency::topo_perm_ok(auto@, deps@, sorted@, p);
        assert(sorted@.len() == auto@.len());
    }
    let ghost lines = replan_lines(kept@, sorted@, base as int, rem as int);
    let mut lines_v: Vec<ReplanPreviewItem> = Vec::new();
    let mut keys: Vec<String> = Vec::new();
    let kl = kept.len();
    let mut j: usize = 0;
    while j < kl
        invariant
            lines == replan_lines(kept@, sorted@, base as int, rem as int),
            kl == kept@.len(),
            j <= kl,
            lines_v@.len() == j,
            keys@.len() == j,
            forall|q: int|
                0 <= q < j ==> item_of(#[trigger] lines_v@[q], lines[q].0, lines[q].1, lines[q].2) && keys@[q]@
                    == date_text(lines[q].0.plan_date),
        decreases kl - j,
    {
        let ghost old_lines_v = lines_v@;
        let ghost old_keys = keys@;
        lines_v.push(make_item(&kept[j], kept[j].plan_qty, true));
        keys.push(date_or_empty(&kept[j].plan_date));
        proof {
            assert(lines[j as int] == (kept@[j as int], kept@[j as int].plan_qty as int, true));
            assert forall|q: int|
                0 <= q < j + 1 implies item_of(#[trigger] lines_v@[q], lines[q].0, lines[q].1, lines[q].2) && keys@[q]@
                    == date_text(lines[q].0.plan_date) by {
                if q < j {
                    assert(lines_v@[q] == old_lines_v[q]);
                    assert(keys@[q] == old_keys[q]);
                }
            }
        }
        j = j + 1;
    }
    let sl = sorted.len();
    let mut j: usize = 0;
    while j < sl
        invariant
            lines == replan_lines(kept@, sorted@, base as int, rem as int),
            kl == kept@.len(),
            sl == sorted@.len(),
            base >= 0,
            rem >= 0,
            rem >= 1 ==> base + 100 <= i64::MAX,
            j <= sl,
            lines_v@.len() == kl + j,
            keys@.len() == kl + j,
            forall|q: int|
                0 <= q < kl + j ==> item_of(#[trigger] lines_v@[q], lines[q].0, lines[q].1, lines[q].2) && keys@[q]@
                    == date_text(lines[q].0.plan_date),
        decreases sl - j,
    {
        let qty: i64 = if (j as u128) < (rem as u128) {
            base + 100
        } else {
            base
        };
        let ghost old_lines_v = lines_v@;
        let ghost old_keys = keys@;
        lines_v.push(make_item(&sorted[j], qty, false));
        keys.push(date_or_empty(&sorted[j].plan_date));
        proof {
            assert(lines[kl + j] == (
                sorted@[j as int],
                if j < rem {
                    base + 100
                } else {
                    base as int
                },
                false,
            ));
            assert(qty == lines[kl + j].1);
            assert(lines_v@[kl + j] == lines_v@[lines_v@.len() - 1]);
            assert(item_of(lines_v@[kl + j], lines[kl + j].0, lines[kl + j].1, lines[kl + j].2));
            assert forall|q: int|
                0 <= q < kl + j + 1 implies item_of(#[trigger] lines_v@[q], lines[q].0, lines[q].1, lines[q].2)
                    && keys@[q]@ == date_text(lines[q].0.plan_date) by {
                if q < kl + j {
                    assert(lines_v@[q] == old_lines_v[q]);
                    assert(keys@[q] == old_keys[q]);
                }
            }
        }
        j = j + 1;
    }
    let order = sort_positions_by_text(&keys);
    proof {
        assert(lines.len() == kl + sl);
        assert forall|q: int| 0 <= q < lines.len() implies views(keys@)[q] == line_keys(lines)[q] by {
            assert(item_of(lines_v@[q], lines[q].0, lines[q].1, lines[q].2));
        }
        assert(views(keys@) =~= line_keys(lines));
    }
    let mut items: Vec<ReplanPreviewItem> = Vec::new();
    let total_lines = order.len();
    let mut q: usize = 0;
    while q < total_lines
        invariant
            total_lines == order@.len(),
            sorted_positions(line_keys(lines), order@),
            lines_v@.len() == lines.len(),
            forall|a: int|
                0 <= a < lines.len() ==> item_of(#[trigger] lines_v@[a], lines[a].0, lines[a].1, lines[a].2),
            q <= total_lines,
            items@.len() == q,
            forall|a: int|
                0 <= a < q ==> item_of(
                    #[trigger] items@[a],
                    lines[order@[a] as int].0,
                    lines[order@[a] as int].1,
                    lines[order@[a] as int].2,
                ),
        decreases total_lines - q,
    {
        items.push(copy_item(&lines_v[order[q]]));
        q = q + 1;
    }
    proof {
        assert(sorted_positions(line_keys(lines), order@));
        assert(items_in_date_order(items@, lines));
        assert(topo_result(auto_tasks(unfinished@), deps@, sorted@));
    }
    Ok(
        ReplanPreview {
            goal_id: goal.id.clone(),
            goal_name: goal.name.clone(),
            remaining_days: days,
            remaining_qty: left,
            daily_base: base,
            remainder: rem,
            items,
        },
    )
}

} // verus!
