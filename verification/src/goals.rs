//! Changes to the goal tree: moving a goal, creating, updating and deleting
//! goals, and assembling the tree for display.

use vstd::prelude::*;

use crate::error::{is_business_err, is_not_found_err, is_param_err, not_found, not_found_text, AppError, AppResult};
use crate::models::{CreateGoalInput, Goal, GoalTreeNode, MoveGoalInput, ProgressInfo, Task, UpdateGoalInput};
use crate::progress::{find_goal, goal_ids_distinct, goal_index, in_subtree, parent_of, parent_table, subtree_marks};
use crate::progress::{actual_size, calc_all_goals_progress, plan_size, progress_of};
use crate::util::{copy_opt_string, new_uuid, now_local_ts, str_eq};

verus! {

/// Two optional parent ids name the same parent (both none, or equal texts).
pub open spec fn same_parent(a: Option<String>, b: Option<String>) -> bool {
    match (a, b) {
        (None, None) => true,
        (Some(x), Some(y)) => x@ == y@,
        _ => false,
    }
}

/// The path tail from goal `g` down to goal `d`: `/id` for each goal below
/// `g` on the way to `d`; `None` when `g` is not among the first `fuel`
/// parents of `d` (`d` itself being the first).
pub open spec fn chain_suffix(goals: Seq<Goal>, d: int, g: int, fuel: nat) -> Option<Seq<char>>
    decreases fuel,
{
    if d == g {
        Some(Seq::<char>::empty())
    } else if fuel == 0 {
        None
    } else {
        match parent_of(goals, d) {
            Some(p) => match chain_suffix(goals, p, g, (fuel - 1) as nat) {
                Some(s) => Some(s + "/"@ + goals[d].id@),
                None => None,
            },
            None => None,
        }
    }
}

/// The number of goals other than `g` whose parent is `parent`, among the
/// first `upto`.
pub open spec fn sibling_count(goals: Seq<Goal>, g: int, parent: Option<String>, upto: int) -> int
    decreases upto,
{
    if upto <= 0 {
        0
    } else {
        sibling_count(goals, g, parent, upto - 1) + if upto - 1 != g && same_parent(goals[upto - 1].parent_id, parent) {
            1int
        } else {
            0int
        }
    }
}

/// Goal `new` is goal `old` with only its parent, path and position changed.
pub open spec fn goal_moved(old: Goal, new: Goal, parent: Option<String>, path: Seq<char>, order: int) -> bool {
    &&& new.id == old.id
    &&& new.name == old.name
    &&& new.parent_id == parent
    &&& new.path@ == path
    &&& new.deadline == old.deadline
    &&& new.total_qty == old.total_qty
    &&& new.unit == old.unit
    &&& new.sort_order == order
    &&& new.created_at == old.created_at
    &&& new.daily_capacity == old.daily_capacity
}

/// The goal table after goal `g` moved under `parent` with path `path` at
/// position `order`: when `target` is given, the other goals under `parent`
/// at that position or later move one place down; every goal below `g`
/// gets `g`'s new path followed by its own tail.
pub open spec fn moved_table(
    goals: Seq<Goal>,
    g: int,
    parent: Option<String>,
    path: Seq<char>,
    order: int,
    target: Option<i64>,
    new: Seq<Goal>,
) -> bool {
    &&& new.len() == goals.len()
    &&& forall|x: int|
        0 <= x < goals.len() ==> goal_moved(
            goals[x],
            #[trigger] new[x],
            if x == g {
                parent
            } else {
                goals[x].parent_id
            },
            match chain_suffix(goals, x, g, (goals.len() - 1) as nat) {
                Some(s) => path + s,
                None => goals[x].path@,
            },
            if x == g {
                order
            } else if target is Some && same_parent(goals[x].parent_id, parent) && goals[x].sort_order
                >= target->0 {
                goals[x].sort_order + 1
            } else {
                goals[x].sort_order as int
            },
        )
}

/// The new parent `p` is a goal below the goal `g` being moved.
pub open spec fn strictly_below(goals: Seq<Goal>, g: int, p: Seq<char>) -> bool {
    &&& goal_index(goals, p) is Some
    &&& goal_index(goals, p)->0 != g
    &&& in_subtree(goals, g, goal_index(goals, p)->0)
}

/// What `move_goal` gives.
pub open spec fn move_outcome(goals: Seq<Goal>, input: MoveGoalInput, r: AppResult<Vec<Goal>>) -> bool {
    match goal_index(goals, input.goal_id@) {
        None => r is Err && is_not_found_err(r->Err_0, not_found_text("目标"@, input.goal_id@)),
        Some(g) => {
            let id = goals[g].id@;
            match input.new_parent_id {
                Some(p) => {
                    &&& p@ == id ==> r is Err && is_business_err(r->Err_0, "不能将目标移动到自身下"@)
                    &&& p@ != id && strictly_below(goals, g, p@) ==> r is Err && is_business_err(
                        r->Err_0,
                        "不能将目标移动到其子目标下（会形成循环）"@,
                    )
                    &&& p@ != id && !strictly_below(goals, g, p@) && goal_index(goals, p@) is None ==> r is Err
                        && is_not_found_err(r->Err_0, not_found_text("父目标"@, p@))
                    &&& p@ != id && !strictly_below(goals, g, p@) && goal_index(goals, p@) is Some
                        ==> placed_outcome(goals, input, g, goals[goal_index(goals, p@)->0].path@ + "/"@ + id, r)
                },
                None => placed_outcome(goals, input, g, "/"@ + id, r),
            }
        },
    }
}

/// What `move_goal` gives once the new parent is accepted and the new path is `path`.
pub open spec fn placed_outcome(goals: Seq<Goal>, input: MoveGoalInput, g: int, path: Seq<char>, r: AppResult<
    Vec<Goal>,
>) -> bool {
    match input.before_goal_id {
        Some(b) => match goal_index(goals, b@) {
            None => r is Err && is_not_found_err(r->Err_0, not_found_text("前置目标"@, b@)),
            Some(bi) => {
                &&& !same_parent(goals[bi].parent_id, input.new_parent_id) ==> r is Err && is_param_err(
                    r->Err_0,
                    "前置目标与新父目标不同级，无法排序"@,
                )
                &&& same_parent(goals[bi].parent_id, input.new_parent_id) ==> r is Ok && moved_table(
                    goals,
                    g,
                    input.new_parent_id,
                    path,
                    goals[bi].sort_order as int,
                    Some(goals[bi].sort_order),
                    r->Ok_0@,
                )
            },
        },
        None => r is Ok && moved_table(
            goals,
            g,
            input.new_parent_id,
            path,
            sibling_count(goals, g, input.new_parent_id, goals.len() as int),
            None,
            r->Ok_0@,
        ),
    }
}

fn parents_equal(a: &Option<String>, b: &Option<String>) -> (r: bool)
    ensures
        r == same_parent(*a, *b),
{
    match (a, b) {
        (None, None) => true,
        (Some(x), Some(y)) => *x == *y,
        _ => false,
    }
}

/// The path tail from goal `g` down to goal `d`, walking up from `d`.
fn path_suffix(goals: &Vec<Goal>, par: &Vec<Option<usize>>, d: usize, g: usize) -> (r: Option<String>)
    requires
        d < goals@.len(),
        g < goals@.len(),
        par@.len() == goals@.len(),
        forall|x: int|
            0 <= x < goals@.len() ==> (match #[trigger] par@[x] {
                Some(p) => p < goals@.len() && parent_of(goals@, x) == Some(p as int),
                None => parent_of(goals@, x) is None,
            }),
    ensures
        match chain_suffix(goals@, d as int, g as int, (goals@.len() - 1) as nat) {
            Some(s) => r is Some && r->0@ == s,
            None => r is None,
        },
{
    let n = goals.len();
    let ghost f0 = (n - 1) as nat;
    let mut cur: usize = d;
    let mut acc = String::new();
    let mut k: usize = 0;
    while k < n - 1 && cur != g
        invariant
            n == goals@.len(),
            f0 == n - 1,
            k <= n - 1,
            cur < n,
            g < n,
            par@.len() == n,
            forall|x: int|
                0 <= x < n ==> (match #[trigger] par@[x] {
                    Some(p) => p < n && parent_of(goals@, x) == Some(p as int),
                    None => parent_of(goals@, x) is None,
                }),
            chain_suffix(goals@, d as int, g as int, f0) == match chain_suffix(
                goals@,
                cur as int,
                g as int,
                (f0 - k) as nat,
            ) {
                Some(s) => Some(s + acc@),
                None => None::<Seq<char>>,
            },
        decreases n - 1 - k,
    {
        match par[cur] {
            None => {
                return None;
            },
            Some(p) => {
                let ghost old_acc = acc@;
                let ghost old_cur = cur;
                acc = String::from_str("/").concat(goals[cur].id.as_str()).concat(acc.as_str());
                proof {
                    let f = (f0 - k) as nat;
                    assert(chain_suffix(goals@, old_cur as int, g as int, f) == match chain_suffix(
                        goals@,
                        p as int,
                        g as int,
                        (f - 1) as nat,
                    ) {
                        Some(s) => Some(s + "/"@ + goals@[old_cur as int].id@),
                        None => None::<Seq<char>>,
                    });
                    match chain_suffix(goals@, p as int, g as int, (f - 1) as nat) {
                        Some(s) => {
                            assert(s + "/"@ + goals@[old_cur as int].id@ + old_acc =~= s + acc@);
                        },
                        None => {},
                    }
                }
                cur = p;
            },
        }
        k = k + 1;
    }
    if cur == g {
        proof {
            assert(Seq::<char>::empty() + acc@ =~= acc@);
        }
        Some(acc)
    } else {
        None
    }
}

/// Moves a goal under a new parent (or to the top level) and to a new
/// position among its siblings, and gives the whole goal table afterwards.
///
/// The new parent may be neither the goal itself nor a goal below it, and
/// must exist. With `before_goal_id` the goal takes that sibling's position
/// and the siblings from there on move one place down; without it the goal
/// goes last. The goal's path and the paths of all goals below it follow the
/// new parent's path.
pub fn move_goal(goals: &Vec<Goal>, input: &MoveGoalInput) -> (r: AppResult<Vec<Goal>>)
    requires
        goal_ids_distinct(goals@),
        goals@.len() <= i64::MAX,
        forall|x: int| 0 <= x < goals@.len() ==> #[trigger] goals@[x].sort_order < i64::MAX,
    ensures
        move_outcome(goals@, *input, r),
{
    let g = match find_goal(goals, &input.goal_id) {
        None => {
            return Err(not_found("目标", input.goal_id.as_str()));
        },
        Some(g) => g,
    };
    let par = parent_table(goals);
    let new_path: String = match &input.new_parent_id {
        Some(pid) => {
            if *pid == goals[g].id {
                return Err(AppError::Business(String::from_str("不能将目标移动到自身下")));
            }
            match find_goal(goals, pid) {
                Some(pidx) => {
                    let marks = subtree_marks(goals, &par, pidx);
                    if marks[g] {
                        return Err(AppError::Business(String::from_str("不能将目标移动到其子目标下（会形成循环）")));
                    }
                    goals[pidx].path.clone().concat("/").concat(goals[g].id.as_str())
                },
                None => {
                    return Err(not_found("父目标", pid.as_str()));
                },
            }
        },
        None => String::from_str("/").concat(goals[g].id.as_str()),
    };
    let n = goals.len();
    let (order, target): (i64, Option<i64>) = match &input.before_goal_id {
        Some(bid) => match find_goal(goals, bid) {
            None => {
                return Err(not_found("前置目标", bid.as_str()));
            },
            Some(bi) => {
                if !parents_equal(&goals[bi].parent_id, &input.new_parent_id) {
                    return Err(AppError::Param(String::from_str("前置目标与新父目标不同级，无法排序")));
                }
                (goals[bi].sort_order, Some(goals[bi].sort_order))
            },
        },
        None => {
            let mut count: i64 = 0;
            let mut k: usize = 0;
            while k < n
                invariant
                    n == goals@.len(),
                    n <= i64::MAX,
                    k <= n,
                    0 <= count <= k,
                    count == sibling_count(goals@, g as int, input.new_parent_id, k as int),
                decreases n - k,
            {
                if k != g && parents_equal(&goals[k].parent_id, &input.new_parent_id) {
                    count = count + 1;
                }
                k = k + 1;
            }
            (count, None)
        },
    };
    let mut out: Vec<Goal> = Vec::new();
    let mut x: usize = 0;
    while x < n
        invariant
            n == goals@.len(),
            g < n,
            x <= n,
            par@.len() == n,
            forall|y: int|
                0 <= y < n ==> (match #[trigger] par@[y] {
                    Some(p) => p < n && parent_of(goals@, y) == Some(p as int),
                    None => parent_of(goals@, y) is None,
                }),
            forall|y: int| 0 <= y < n ==> #[trigger] goals@[y].sort_order < i64::MAX,
            out@.len() == x,
            forall|y: int|
                0 <= y < x ==> goal_moved(
                    goals@[y],
                    #[trigger] out@[y],
                    if y == g {
                        input.new_parent_id
                    } else {
                        goals@[y].parent_id
                    },
                    match chain_suffix(goals@, y, g as int, (n - 1) as nat) {
                        Some(s) => new_path@ + s,
                        None => goals@[y].path@,
                    },
                    if y == g {
                        order as int
                    } else if target is Some && same_parent(goals@[y].parent_id, input.new_parent_id)
                        && goals@[y].sort_order >= target->0 {
                        goals@[y].sort_order + 1
                    } else {
                        goals@[y].sort_order as int
                    },
                ),
        decreases n - x,
    {
        let gx = &goals[x];
        let parent_id = if x == g {
            copy_opt_string(&input.new_parent_id)
        } else {
            copy_opt_string(&gx.parent_id)
        };
        let path = match path_suffix(goals, &par, x, g) {
            Some(tail) => new_path.clone().concat(tail.as_str()),
            None => gx.path.clone(),
        };
        let shift = match target {
            Some(t) => parents_equal(&gx.parent_id, &input.new_parent_id) && gx.sort_order >= t,
            None => false,
        };
        let sort_order = if x == g {
            order
        } else if shift {
            gx.sort_order + 1
        } else {
            gx.sort_order
        };
        out.push(
            Goal {
                id: gx.id.clone(),
                name: gx.name.clone(),
                parent_id,
                path,
                deadline: copy_opt_string(&gx.deadline),
                total_qty: gx.total_qty,
                unit: gx.unit.clone(),
                sort_order,
                created_at: gx.created_at.clone(),
                daily_capacity: gx.daily_capacity,
            },
        );
        x = x + 1;
    }
    Ok(out)
}

/// Creates a goal under `input.parent_id` (or at the top level), last among
/// its siblings; its path is its parent's path followed by its own id.
pub fn create_goal(goals: &Vec<Goal>, input: &CreateGoalInput) -> (r: AppResult<Goal>)
    requires
        goal_ids_distinct(goals@),
        goals@.len() <= i64::MAX,
    ensures
        match input.parent_id {
            Some(p) => goal_index(goals@, p@) is None ==> r is Err && is_not_found_err(
                r->Err_0,
                not_found_text("父目标"@, p@),
            ),
            None => true,
        },
        (match input.parent_id {
            Some(p) => goal_index(goals@, p@) is Some,
            None => true,
        }) ==> r is Ok && ({
            let g = r->Ok_0;
            &&& g.id@.len() == 36
            &&& g.name == input.name
            &&& g.parent_id == input.parent_id
            &&& g.path@ == match input.parent_id {
                Some(p) => goals@[goal_index(goals@, p@)->0].path@ + "/"@ + g.id@,
                None => "/"@ + g.id@,
            }
            &&& g.deadline == input.deadline
            &&& g.total_qty == match input.total_qty {
                Some(q) => q,
                None => 0,
            }
            &&& g.unit@ == match input.unit {
                Some(u) => u@,
                None => Seq::<char>::empty(),
            }
            &&& g.sort_order == sibling_count(goals@, -1, input.parent_id, goals@.len() as int)
            &&& g.daily_capacity == input.daily_capacity
        }),
{
    let base_path: String = match &input.parent_id {
        Some(pid) => match find_goal(goals, pid) {
            None => {
                return Err(not_found("父目标", pid.as_str()));
            },
            Some(pi) => goals[pi].path.clone().concat("/"),
        },
        None => String::from_str("/"),
    };
    let n = goals.len();
    let mut count: i64 = 0;
    let mut k: usize = 0;
    while k < n
        invariant
            n == goals@.len(),
            n <= i64::MAX,
            k <= n,
            0 <= count <= k,
            count == sibling_count(goals@, -1, input.parent_id, k as int),
        decreases n - k,
    {
        if parents_equal(&goals[k].parent_id, &input.parent_id) {
            count = count + 1;
        }
        k = k + 1;
    }
    let id = new_uuid();
    let path = base_path.concat(id.as_str());
    let unit = match &input.unit {
        Some(u) => u.clone(),
        None => String::new(),
    };
    Ok(
        Goal {
            id,
            name: input.name.clone(),
            parent_id: copy_opt_string(&input.parent_id),
            path,
            deadline: copy_opt_string(&input.deadline),
            total_qty: match input.total_qty {
                Some(q) => q,
                None => 0,
            },
            unit,
            sort_order: count,
            created_at: now_local_ts(),
            daily_capacity: input.daily_capacity,
        },
    )
}

/// Applies an update to a goal: each given field replaces the goal's own;
/// an update that gives no field is refused.
pub fn update_goal(goal: &Goal, input: &UpdateGoalInput) -> (r: AppResult<Goal>)
    ensures
        (input.name is None && input.deadline is None && input.total_qty is None && input.unit is None
            && input.daily_capacity is None) ==> r is Err && is_param_err(r->Err_0, "未提供任何更新字段"@),
        !(input.name is None && input.deadline is None && input.total_qty is None && input.unit is None
            && input.daily_capacity is None) ==> r is Ok && ({
            let g = r->Ok_0;
            &&& g.id == goal.id
            &&& g.name == match input.name {
                Some(x) => x,
                None => goal.name,
            }
            &&& g.parent_id == goal.parent_id
            &&& g.path == goal.path
            &&& g.deadline == match input.deadline {
                Some(x) => Some(x),
                None => goal.deadline,
            }
            &&& g.total_qty == match input.total_qty {
                Some(x) => x,
                None => goal.total_qty,
            }
            &&& g.unit == match input.unit {
                Some(x) => x,
                None => goal.unit,
            }
            &&& g.sort_order == goal.sort_order
            &&& g.created_at == goal.created_at
            &&& g.daily_capacity == match input.daily_capacity {
                Some(x) => Some(x),
                None => goal.daily_capacity,
            }
        }),
{
    if input.name.is_none() && input.deadline.is_none() && input.total_qty.is_none() && input.unit.is_none()
        && input.daily_capacity.is_none() {
        return Err(AppError::Param(String::from_str("未提供任何更新字段")));
    }
    let mut g = goal.copy();
    if let Some(x) = &input.name {
        g.name = x.clone();
    }
    if let Some(x) = &input.deadline {
        g.deadline = Some(x.clone());
    }
    if let Some(x) = input.total_qty {
        g.total_qty = x;
    }
    if let Some(x) = &input.unit {
        g.unit = x.clone();
    }
    if let Some(x) = input.daily_capacity {
        g.daily_capacity = Some(x);
    }
    Ok(g)
}

/// Goal `d` is removed with the goal `id`: on its chain of parents (itself
/// included) lies a goal whose parent is `id`.
pub open spec fn removed_with(goals: Seq<Goal>, id: Seq<char>, d: int) -> bool {
    exists|x: int|
        0 <= x < goals.len() && #[trigger] in_subtree(goals, x, d) && goals[x].parent_id is Some
            && goals[x].parent_id->0@ == id
}

/// The ids of the goals among the first `upto` that are removed with `id`.
pub open spec fn removed_ids(goals: Seq<Goal>, id: Seq<char>, upto: int) -> Seq<Seq<char>>
    decreases upto,
{
    if upto <= 0 {
        Seq::empty()
    } else if removed_with(goals, id, upto - 1) {
        removed_ids(goals, id, upto - 1).push(goals[upto - 1].id@)
    } else {
        removed_ids(goals, id, upto - 1)
    }
}

/// The ids to delete with the goal `id`: `id` itself, then every goal below
/// it at any depth, in table order.
pub fn goal_ids_to_delete(goals: &Vec<Goal>, id: &str) -> (r: Vec<String>)
    requires
        goal_ids_distinct(goals@),
    ensures
        r@.map_values(|s: String| s@) == seq![id@] + removed_ids(goals@, id@, goals@.len() as int),
{
    let par = parent_table(goals);
    let n = goals.len();
    let mut out: Vec<String> = Vec::new();
    out.push(String::from_str(id));
    let mut d: usize = 0;
    while d < n
        invariant
            n == goals@.len(),
            d <= n,
            par@.len() == n,
            forall|y: int|
                0 <= y < n ==> (match #[trigger] par@[y] {
                    Some(p) => p < n && parent_of(goals@, y) == Some(p as int),
                    None => parent_of(goals@, y) is None,
                }),
            out@.map_values(|s: String| s@) == seq![id@] + removed_ids(goals@, id@, d as int),
        decreases n - d,
    {
        let marks = subtree_marks(goals, &par, d);
        let mut hit = false;
        let mut x: usize = 0;
        while x < n
            invariant
                n == goals@.len(),
                x <= n,
                marks@.len() == n,
                forall|g: int| 0 <= g < n ==> (#[trigger] marks@[g] <==> in_subtree(goals@, g, d as int)),
                hit == exists|y: int|
                    0 <= y < x && #[trigger] in_subtree(goals@, y, d as int) && goals@[y].parent_id is Some
                        && goals@[y].parent_id->0@ == id@,
            decreases n - x,
        {
            let child_of_id = match &goals[x].parent_id {
                Some(p) => str_eq(p.as_str(), id),
                None => false,
            };
            let ghost old_hit = hit;
            if marks[x] && child_of_id {
                hit = true;
            }
            proof {
                if old_hit {
                    let y = choose|y: int|
                        0 <= y < x && #[trigger] in_subtree(goals@, y, d as int) && goals@[y].parent_id is Some
                            && goals@[y].parent_id->0@ == id@;
                    assert(0 <= y < x + 1);
                }
                if exists|y: int|
                    0 <= y < x + 1 && #[trigger] in_subtree(goals@, y, d as int) && goals@[y].parent_id is Some
                        && goals@[y].parent_id->0@ == id@ {
                    let y = choose|y: int|
                        0 <= y < x + 1 && #[trigger] in_subtree(goals@, y, d as int) && goals@[y].parent_id is Some
                            && goals@[y].parent_id->0@ == id@;
                    if y == x {
                        assert(marks@[x as int]);
                    } else {
                        assert(old_hit);
                    }
                }
            }
            x = x + 1;
        }
        let ghost old_out = out@;
        if hit {
            out.push(goals[d].id.clone());
            proof {
                assert(out@.map_values(|s: String| s@) =~= old_out.map_values(|s: String| s@).push(goals@[d as int].id@));
            }
        }
        d = d + 1;
    }
    out
}

/// The positions, among the first `upto`, of the goals whose parent is goal `g`.
pub open spec fn child_positions(goals: Seq<Goal>, g: int, upto: int) -> Seq<int>
    decreases upto,
{
    if upto <= 0 {
        Seq::empty()
    } else if goals[upto - 1].parent_id is Some && goals[upto - 1].parent_id->0@ == goals[g].id@ {
        child_positions(goals, g, upto - 1).push(upto - 1)
    } else {
        child_positions(goals, g, upto - 1)
    }
}

/// The positions, among the first `upto`, of the top-level goals.
pub open spec fn root_positions(goals: Seq<Goal>, upto: int) -> Seq<int>
    decreases upto,
{
    if upto <= 0 {
        Seq::empty()
    } else if goals[upto - 1].parent_id is None {
        root_positions(goals, upto - 1).push(upto - 1)
    } else {
        root_positions(goals, upto - 1)
    }
}

/// The tasks of the goal `id`, in their order.
pub open spec fn tasks_of(tasks: Seq<Task>, id: Seq<char>) -> Seq<Task>
    decreases tasks.len(),
{
    if tasks.len() == 0 {
        Seq::empty()
    } else if tasks.last().goal_id@ == id {
        tasks_of(tasks.drop_last(), id).push(tasks.last())
    } else {
        tasks_of(tasks.drop_last(), id)
    }
}

/// `n` is the tree node of goal `g`, with its sub-goals down to `fuel` levels.
pub open spec fn tree_node_ok(goals: Seq<Goal>, tasks: Seq<Task>, n: GoalTreeNode, g: int, fuel: nat) -> bool
    decreases fuel,
{
    &&& n.goal == goals[g]
    &&& n.tasks@ == tasks_of(tasks, goals[g].id@)
    &&& n.total_plan == crate::progress::plan_total(goals, tasks, g)
    &&& n.total_actual == crate::progress::actual_total(goals, tasks, g)
    &&& n.is_completed == crate::progress::goal_completed(goals, tasks, g)
    &&& fuel == 0 ==> n.sub_goals@.len() == 0
    &&& fuel > 0 ==> n.sub_goals@.len() == child_positions(goals, g, goals.len() as int).len() && forall|k: int|
        0 <= k < n.sub_goals@.len() ==> tree_node_ok(
            goals,
            tasks,
            #[trigger] n.sub_goals@[k],
            child_positions(goals, g, goals.len() as int)[k],
            (fuel - 1) as nat,
        )
}

fn child_list(goals: &Vec<Goal>, g: usize) -> (r: Vec<usize>)
    requires
        g < goals@.len(),
    ensures
        r@.len() == child_positions(goals@, g as int, goals@.len() as int).len(),
        forall|k: int|
            0 <= k < r@.len() ==> #[trigger] r@[k] as int == child_positions(goals@, g as int, goals@.len() as int)[k]
                && r@[k] < goals@.len(),
{
    let mut r: Vec<usize> = Vec::new();
    let mut c: usize = 0;
    while c < goals.len()
        invariant
            g < goals@.len(),
            c <= goals@.len(),
            r@.len() == child_positions(goals@, g as int, c as int).len(),
            forall|k: int|
                0 <= k < r@.len() ==> #[trigger] r@[k] as int == child_positions(goals@, g as int, c as int)[k] && r@[k]
                    < c,
        decreases goals@.len() - c,
    {
        let hit = match &goals[c].parent_id {
            Some(p) => *p == goals[g].id,
            None => false,
        };
        if hit {
            r.push(c);
        }
        c = c + 1;
    }
    r
}

fn root_list(goals: &Vec<Goal>) -> (r: Vec<usize>)
    ensures
        r@.len() == root_positions(goals@, goals@.len() as int).len(),
        forall|k: int|
            0 <= k < r@.len() ==> #[trigger] r@[k] as int == root_positions(goals@, goals@.len() as int)[k] && r@[k]
                < goals@.len(),
{
    let mut r: Vec<usize> = Vec::new();
    let mut c: usize = 0;
    while c < goals.len()
        invariant
            c <= goals@.len(),
            r@.len() == root_positions(goals@, c as int).len(),
            forall|k: int|
                0 <= k < r@.len() ==> #[trigger] r@[k] as int == root_positions(goals@, c as int)[k] && r@[k] < c,
        decreases goals@.len() - c,
    {
        if goals[c].parent_id.is_none() {
            r.push(c);
        }
        c = c + 1;
    }
    r
}

fn tasks_of_goal(tasks: &Vec<Task>, id: &String) -> (r: Vec<Task>)
    ensures
        r@ == tasks_of(tasks@, id@),
{
    let mut r: Vec<Task> = Vec::new();
    let mut k: usize = 0;
    while k < tasks.len()
        invariant
            k <= tasks@.len(),
            r@ == tasks_of(tasks@.subrange(0, k as int), id@),
        decreases tasks@.len() - k,
    {
        proof {
            assert(tasks@.subrange(0, k as int + 1).drop_last() =~= tasks@.subrange(0, k as int));
        }
        if tasks[k].goal_id == *id {
            r.push(tasks[k].copy());
        }
        k = k + 1;
    }
    proof {
        assert(tasks@.subrange(0, tasks@.len() as int) =~= tasks@);
    }
    r
}

fn build_tree_nodes(
    goals: &Vec<Goal>,
    tasks: &Vec<Task>,
    progress: &Vec<ProgressInfo>,
    positions: &Vec<usize>,
    fuel: usize,
) -> (r: Vec<GoalTreeNode>)
    requires
        progress@.len() == goals@.len(),
        forall|g: int| 0 <= g < goals@.len() ==> progress_of(#[trigger] progress@[g], goals@, tasks@, g),
        forall|k: int| 0 <= k < positions@.len() ==> #[trigger] positions@[k] < goals@.len(),
    ensures
        r@.len() == positions@.len(),
        forall|k: int|
            0 <= k < r@.len() ==> tree_node_ok(goals@, tasks@, #[trigger] r@[k], positions@[k] as int, fuel as nat),
    decreases fuel,
{
    let mut out: Vec<GoalTreeNode> = Vec::new();
    let mut k: usize = 0;
    while k < positions.len()
        invariant
            progress@.len() == goals@.len(),
            forall|g: int| 0 <= g < goals@.len() ==> progress_of(#[trigger] progress@[g], goals@, tasks@, g),
            forall|q: int| 0 <= q < positions@.len() ==> #[trigger] positions@[q] < goals@.len(),
            k <= positions@.len(),
            out@.len() == k,
            forall|q: int|
                0 <= q < k ==> tree_node_ok(goals@, tasks@, #[trigger] out@[q], positions@[q] as int, fuel as nat),
        decreases positions@.len() - k,
    {
        let g = positions[k];
        let subs = if fuel == 0 {
            Vec::new()
        } else {
            let cs = child_list(goals, g);
            build_tree_nodes(goals, tasks, progress, &cs, fuel - 1)
        };
        assert(progress_of(progress@[g as int], goals@, tasks@, g as int));
        let node = GoalTreeNode {
            goal: goals[g].copy(),
            sub_goals: subs,
            tasks: tasks_of_goal(tasks, &goals[g].id),
            total_plan: progress[g].total_plan,
            total_actual: progress[g].total_actual,
            is_completed: progress[g].is_completed,
        };
        proof {
            if fuel > 0 {
                assert forall|q: int| 0 <= q < node.sub_goals@.len() implies tree_node_ok(
                    goals@,
                    tasks@,
                    #[trigger] node.sub_goals@[q],
                    child_positions(goals@, g as int, goals@.len() as int)[q],
                    (fuel - 1) as nat,
                ) by {
                }
            }
        }
        out.push(node);
        k = k + 1;
    }
    out
}

/// The goal tree: each top-level goal with its sub-goals (in table order),
/// its own tasks (in their order) and its progress.
pub fn list_goal_tree(goals: &Vec<Goal>, tasks: &Vec<Task>) -> (r: Vec<GoalTreeNode>)
    requires
        goal_ids_distinct(goals@),
        plan_size(tasks@) <= i64::MAX,
        actual_size(tasks@) <= i64::MAX,
    ensures
        r@.len() == root_positions(goals@, goals@.len() as int).len(),
        forall|k: int|
            0 <= k < r@.len() ==> tree_node_ok(
                goals@,
                tasks@,
                #[trigger] r@[k],
                root_positions(goals@, goals@.len() as int)[k],
                goals@.len() as nat,
            ),
{
    let progress = calc_all_goals_progress(goals, tasks);
    let roots = root_list(goals);
    build_tree_nodes(goals, tasks, &progress, &roots, goals.len())
}

} // verus!
