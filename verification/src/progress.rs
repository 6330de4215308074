//! Progress of goals: the planned and done amounts of every task below a
//! goal (its own and its sub-goals', at any depth), and whether it is done.

use vstd::prelude::*;

use crate::error::{is_not_found_err, not_found, not_found_text, AppResult};
use crate::models::{Goal, ProgressInfo, Task};
use crate::util::str_eq;

verus! {

/// No two goals share an id (ids are the goals' keys).
pub open spec fn goal_ids_distinct(goals: Seq<Goal>) -> bool {
    forall|a: int, b: int|
        0 <= a < goals.len() && 0 <= b < goals.len() && a != b ==> #[trigger] goals[a].id@ != #[trigger] goals[b].id@
}

/// The position of the goal with id `id`, if there is one.
pub open spec fn goal_index(goals: Seq<Goal>, id: Seq<char>) -> Option<int> {
    if exists|j: int| 0 <= j < goals.len() && #[trigger] goals[j].id@ == id {
        Some(choose|j: int| 0 <= j < goals.len() && #[trigger] goals[j].id@ == id)
    } else {
        None
    }
}

/// The position of the parent of goal `d`, if it has one among `goals`.
pub open spec fn parent_of(goals: Seq<Goal>, d: int) -> Option<int> {
    match goals[d].parent_id {
        Some(p) => goal_index(goals, p@),
        None => None,
    }
}

/// The goal reached from goal `d` by `k` steps up the parent links.
pub open spec fn up(goals: Seq<Goal>, d: int, k: nat) -> Option<int>
    decreases k,
{
    if k == 0 {
        Some(d)
    } else {
        match up(goals, d, (k - 1) as nat) {
            Some(x) => parent_of(goals, x),
            None => None,
        }
    }
}

/// Goal `d` lies below goal `g` (or is `g`): `g` is on the chain of parents
/// of `d`. In a goal tree every chain of parents is shorter than the number
/// of goals.
pub open spec fn in_subtree(goals: Seq<Goal>, g: int, d: int) -> bool {
    exists|k: nat| k < goals.len() && #[trigger] up(goals, d, k) == Some(g)
}

/// Task `t` is counted in the progress of goal `g`: it is not skipped and
/// its goal lies below `g`.
pub open spec fn counts(goals: Seq<Goal>, g: int, t: Task) -> bool {
    &&& t.status@ != "skipped"@
    &&& goal_index(goals, t.goal_id@) is Some
    &&& in_subtree(goals, g, goal_index(goals, t.goal_id@)->0)
}

/// The planned amount of the tasks counted for goal `g`.
pub open spec fn plan_total(goals: Seq<Goal>, tasks: Seq<Task>, g: int) -> int
    decreases tasks.len(),
{
    if tasks.len() == 0 {
        0
    } else {
        plan_total(goals, tasks.drop_last(), g) + if counts(goals, g, tasks.last()) {
            tasks.last().plan_qty as int
        } else {
            0
        }
    }
}

/// The done amount of the tasks counted for goal `g`.
pub open spec fn actual_total(goals: Seq<Goal>, tasks: Seq<Task>, g: int) -> int
    decreases tasks.len(),
{
    if tasks.len() == 0 {
        0
    } else {
        actual_total(goals, tasks.drop_last(), g) + if counts(goals, g, tasks.last()) {
            tasks.last().actual_qty as int
        } else {
            0
        }
    }
}

/// The sum of the sizes of the planned amounts of the tasks that are not skipped.
pub open spec fn plan_size(tasks: Seq<Task>) -> int
    decreases tasks.len(),
{
    if tasks.len() == 0 {
        0
    } else {
        plan_size(tasks.drop_last()) + if tasks.last().status@ != "skipped"@ {
            abs(tasks.last().plan_qty as int)
        } else {
            0
        }
    }
}

/// The sum of the sizes of the done amounts of the tasks that are not skipped.
pub open spec fn actual_size(tasks: Seq<Task>) -> int
    decreases tasks.len(),
{
    if tasks.len() == 0 {
        0
    } else {
        actual_size(tasks.drop_last()) + if tasks.last().status@ != "skipped"@ {
            abs(tasks.last().actual_qty as int)
        } else {
            0
        }
    }
}

/// The size of an integer.
pub open spec fn abs(x: int) -> int {
    if x < 0 {
        -x
    } else {
        x
    }
}

/// The goal with id `id` on its own is done: it has a task that is not
/// skipped or a sub-goal, and each of its own tasks is done or skipped.
pub open spec fn own_done_id(goals: Seq<Goal>, tasks: Seq<Task>, id: Seq<char>) -> bool {
    &&& (exists|r: int| 0 <= r < tasks.len() && #[trigger] tasks[r].goal_id@ == id && tasks[r].status@ != "skipped"@)
        || (exists|c: int|
        0 <= c < goals.len() && (#[trigger] goals[c].parent_id) is Some && goals[c].parent_id->0@ == id)
    &&& forall|r: int|
        0 <= r < tasks.len() && #[trigger] tasks[r].goal_id@ == id ==> tasks[r].status@ == "done"@
            || tasks[r].status@ == "skipped"@
}

/// Goal `d` on its own is done.
pub open spec fn goal_own_done(goals: Seq<Goal>, tasks: Seq<Task>, d: int) -> bool {
    own_done_id(goals, tasks, goals[d].id@)
}

/// Goal `g` is completed: every goal below it (itself included) is done on
/// its own.
pub open spec fn goal_completed(goals: Seq<Goal>, tasks: Seq<Task>, g: int) -> bool {
    forall|d: int| 0 <= d < goals.len() && #[trigger] in_subtree(goals, g, d) ==> goal_own_done(goals, tasks, d)
}

/// `p` is the progress of goal `g`.
pub open spec fn progress_of(p: ProgressInfo, goals: Seq<Goal>, tasks: Seq<Task>, g: int) -> bool {
    &&& p.id@ == goals[g].id@
    &&& p.name@ == goals[g].name@
    &&& p.total_plan == plan_total(goals, tasks, g)
    &&& p.total_actual == actual_total(goals, tasks, g)
    &&& p.is_completed == goal_completed(goals, tasks, g)
}

pub(crate) fn find_goal(goals: &Vec<Goal>, id: &String) -> (r: Option<usize>)
    requires
        goal_ids_distinct(goals@),
    ensures
        r is Some ==> r->0 < goals@.len() && goal_index(goals@, id@) == Some(r->0 as int),
        r is None ==> goal_index(goals@, id@) is None,
{
    let mut k: usize = 0;
    while k < goals.len()
        invariant
            k <= goals@.len(),
            goal_ids_distinct(goals@),
            forall|a: int| 0 <= a < k ==> #[trigger] goals@[a].id@ != id@,
        decreases goals@.len() - k,
    {
        if goals[k].id == *id {
            proof {
                assert(goals@[k as int].id@ == id@);
                let c = choose|j: int| 0 <= j < goals@.len() && #[trigger] goals@[j].id@ == id@;
                if c != k as int {
                    assert(goals@[c].id@ != goals@[k as int].id@);
                }
            }
            return Some(k);
        }
        k = k + 1;
    }
    None
}

/// The parent position of every goal.
pub(crate) fn parent_table(goals: &Vec<Goal>) -> (t: Vec<Option<usize>>)
    requires
        goal_ids_distinct(goals@),
    ensures
        t@.len() == goals@.len(),
        forall|d: int|
            0 <= d < goals@.len() ==> (match #[trigger] t@[d] {
                Some(p) => p < goals@.len() && parent_of(goals@, d) == Some(p as int),
                None => parent_of(goals@, d) is None,
            }),
{
    let mut t: Vec<Option<usize>> = Vec::new();
    let mut d: usize = 0;
    while d < goals.len()
        invariant
            goal_ids_distinct(goals@),
            d <= goals@.len(),
            t@.len() == d,
            forall|x: int|
                0 <= x < d ==> (match #[trigger] t@[x] {
                    Some(p) => p < goals@.len() && parent_of(goals@, x) == Some(p as int),
                    None => parent_of(goals@, x) is None,
                }),
        decreases goals@.len() - d,
    {
        let p = match &goals[d].parent_id {
            Some(pid) => find_goal(goals, pid),
            None => None,
        };
        t.push(p);
        d = d + 1;
    }
    t
}

/// Marks the goals on the chain of parents of goal `d` (`d` included).
pub(crate) fn subtree_marks(goals: &Vec<Goal>, par: &Vec<Option<usize>>, d: usize) -> (m: Vec<bool>)
    requires
        d < goals@.len(),
        par@.len() == goals@.len(),
        forall|x: int|
            0 <= x < goals@.len() ==> (match #[trigger] par@[x] {
                Some(p) => p < goals@.len() && parent_of(goals@, x) == Some(p as int),
                None => parent_of(goals@, x) is None,
            }),
    ensures
        m@.len() == goals@.len(),
        forall|g: int| 0 <= g < goals@.len() ==> (#[trigger] m@[g] <==> in_subtree(goals@, g, d as int)),
{
    let n = goals.len();
    let mut m: Vec<bool> = Vec::new();
    let mut i: usize = 0;
    while i < n
        invariant
            i <= n,
            m@.len() == i,
            forall|g: int| 0 <= g < i ==> !#[trigger] m@[g],
        decreases n - i,
    {
        m.push(false);
        i = i + 1;
    }
    let mut cur: Option<usize> = Some(d);
    let mut k: usize = 0;
    while k < n
        invariant
            n == goals@.len(),
            par@.len() == n,
            forall|x: int|
                0 <= x < n ==> (match #[trigger] par@[x] {
                    Some(p) => p < n && parent_of(goals@, x) == Some(p as int),
                    None => parent_of(goals@, x) is None,
                }),
            k <= n,
            m@.len() == n,
            match cur {
                Some(c) => c < n && up(goals@, d as int, k as nat) == Some(c as int),
                None => up(goals@, d as int, k as nat) is None,
            },
            forall|g: int|
                0 <= g < n ==> (#[trigger] m@[g] <==> exists|k2: nat| k2 < k && up(goals@, d as int, k2) == Some(g)),
        decreases n - k,
    {
        let ghost old_m = m@;
        match cur {
            Some(c) => {
                m.set(c, true);
                cur = par[c];
            },
            None => {},
        }
        proof {
            assert(up(goals@, d as int, (k + 1) as nat) == match up(goals@, d as int, k as nat) {
                Some(x) => parent_of(goals@, x),
                None => None,
            });
            assert forall|g: int|
                0 <= g < n implies (#[trigger] m@[g] <==> exists|k2: nat|
                    k2 < k + 1 && up(goals@, d as int, k2) == Some(g)) by {
                if m@[g] && !old_m[g] {
                    assert(up(goals@, d as int, k as nat) == Some(g));
                }
                if exists|k2: nat| k2 < k + 1 && up(goals@, d as int, k2) == Some(g) {
                    let k2 = choose|k2: nat| k2 < k + 1 && up(goals@, d as int, k2) == Some(g);
                    if k2 < k {
                        assert(old_m[g]);
                    }
                }
            }
        }
        k = k + 1;
    }
    proof {
        assert forall|g: int| 0 <= g < n implies (#[trigger] m@[g] <==> in_subtree(goals@, g, d as int)) by {
            if m@[g] {
                let k2 = choose|k2: nat| k2 < k && up(goals@, d as int, k2) == Some(g);
                assert(up(goals@, d as int, k2) == Some(g));
            }
        }
    }
    m
}

proof fn lemma_prefix_step(goals: Seq<Goal>, tasks: Seq<Task>, r: int, g: int)
    requires
        0 <= r < tasks.len(),
    ensures
        plan_total(goals, tasks.subrange(0, r + 1), g) == plan_total(goals, tasks.subrange(0, r), g) + if counts(
            goals,
            g,
            tasks[r],
        ) {
            tasks[r].plan_qty as int
        } else {
            0
        },
        actual_total(goals, tasks.subrange(0, r + 1), g) == actual_total(goals, tasks.subrange(0, r), g) + if counts(
            goals,
            g,
            tasks[r],
        ) {
            tasks[r].actual_qty as int
        } else {
            0
        },
        plan_size(tasks.subrange(0, r + 1)) == plan_size(tasks.subrange(0, r)) + if tasks[r].status@ != "skipped"@ {
            abs(tasks[r].plan_qty as int)
        } else {
            0
        },
        actual_size(tasks.subrange(0, r + 1)) == actual_size(tasks.subrange(0, r)) + if tasks[r].status@
            != "skipped"@ {
            abs(tasks[r].actual_qty as int)
        } else {
            0
        },
{
    assert(tasks.subrange(0, r + 1).drop_last() =~= tasks.subrange(0, r));
}

proof fn lemma_prefix_step_all(goals: Seq<Goal>, tasks: Seq<Task>, r: int)
    requires
        0 <= r < tasks.len(),
    ensures
        forall|g: int|
            #[trigger] plan_total(goals, tasks.subrange(0, r + 1), g) == plan_total(goals, tasks.subrange(0, r), g)
                + if counts(goals, g, tasks[r]) {
                tasks[r].plan_qty as int
            } else {
                0
            },
        forall|g: int|
            #[trigger] actual_total(goals, tasks.subrange(0, r + 1), g) == actual_total(goals, tasks.subrange(0, r), g)
                + if counts(goals, g, tasks[r]) {
                tasks[r].actual_qty as int
            } else {
                0
            },
        plan_size(tasks.subrange(0, r + 1)) == plan_size(tasks.subrange(0, r)) + if tasks[r].status@ != "skipped"@ {
            abs(tasks[r].plan_qty as int)
        } else {
            0
        },
        actual_size(tasks.subrange(0, r + 1)) == actual_size(tasks.subrange(0, r)) + if tasks[r].status@
            != "skipped"@ {
            abs(tasks[r].actual_qty as int)
        } else {
            0
        },
{
    lemma_prefix_step(goals, tasks, r, 0);
    assert forall|g: int|
        #[trigger] plan_total(goals, tasks.subrange(0, r + 1), g) == plan_total(goals, tasks.subrange(0, r), g) + if counts(
            goals,
            g,
            tasks[r],
        ) {
            tasks[r].plan_qty as int
        } else {
            0
        } by {
        lemma_prefix_step(goals, tasks, r, g);
    }
    assert forall|g: int|
        #[trigger] actual_total(goals, tasks.subrange(0, r + 1), g) == actual_total(goals, tasks.subrange(0, r), g)
            + if counts(goals, g, tasks[r]) {
            tasks[r].actual_qty as int
        } else {
            0
        } by {
        lemma_prefix_step(goals, tasks, r, g);
    }
}

proof fn lemma_size_prefix(tasks: Seq<Task>, r: int)
    requires
        0 <= r <= tasks.len(),
    ensures
        plan_size(tasks.subrange(0, r)) <= plan_size(tasks),
        actual_size(tasks.subrange(0, r)) <= actual_size(tasks),
    decreases tasks.len() - r,
{
    if r < tasks.len() {
        lemma_size_prefix(tasks, r + 1);
        lemma_prefix_step(Seq::empty(), tasks, r, 0);
    } else {
        assert(tasks.subrange(0, r) =~= tasks);
    }
}

/// The planned and done totals of every goal.
fn goal_totals(goals: &Vec<Goal>, tasks: &Vec<Task>, par: &Vec<Option<usize>>) -> (r: (Vec<i64>, Vec<i64>))
    requires
        goal_ids_distinct(goals@),
        plan_size(tasks@) <= i64::MAX,
        actual_size(tasks@) <= i64::MAX,
        par@.len() == goals@.len(),
        forall|x: int|
            0 <= x < goals@.len() ==> (match #[trigger] par@[x] {
                Some(p) => p < goals@.len() && parent_of(goals@, x) == Some(p as int),
                None => parent_of(goals@, x) is None,
            }),
    ensures
        r.0@.len() == goals@.len(),
        r.1@.len() == goals@.len(),
        forall|g: int| 0 <= g < goals@.len() ==> #[trigger] r.0@[g] == plan_total(goals@, tasks@, g),
        forall|g: int| 0 <= g < goals@.len() ==> #[trigger] r.1@[g] == actual_total(goals@, tasks@, g),
{
    let n = goals.len();
    let mut plan: Vec<i64> = Vec::new();
    let mut actual: Vec<i64> = Vec::new();
    let mut i: usize = 0;
    while i < n
        invariant
            i <= n,
            plan@.len() == i,
            actual@.len() == i,
            forall|g: int| 0 <= g < i ==> #[trigger] plan@[g] == 0 && actual@[g] == 0,
        decreases n - i,
    {
        plan.push(0);
        actual.push(0);
        i = i + 1;
    }
    proof {
        assert forall|g: int| 0 <= g < n implies #[trigger] plan@[g] == plan_total(goals@, tasks@.subrange(0, 0), g)
            && actual@[g] == actual_total(goals@, tasks@.subrange(0, 0), g) by {
            assert(tasks@.subrange(0, 0).len() == 0);
        }
    }
    let m = tasks.len();
    let mut r: usize = 0;
    while r < m
        invariant
            n == goals@.len(),
            m == tasks@.len(),
            r <= m,
            goal_ids_distinct(goals@),
            plan_size(tasks@) <= i64::MAX,
            actual_size(tasks@) <= i64::MAX,
            par@.len() == n,
            forall|x: int|
                0 <= x < n ==> (match #[trigger] par@[x] {
                    Some(p) => p < n && parent_of(goals@, x) == Some(p as int),
                    None => parent_of(goals@, x) is None,
                }),
            plan@.len() == n,
            actual@.len() == n,
            forall|g: int|
                0 <= g < n ==> #[trigger] plan@[g] == plan_total(goals@, tasks@.subrange(0, r as int), g)
                    && actual@[g] == actual_total(goals@, tasks@.subrange(0, r as int), g),
            forall|g: int|
                0 <= g < n ==> abs(#[trigger] plan@[g] as int) <= plan_size(tasks@.subrange(0, r as int)) && abs(
                    actual@[g] as int,
                ) <= actual_size(tasks@.subrange(0, r as int)),
        decreases m - r,
    {
        let t = &tasks[r];
        proof {
            lemma_size_prefix(tasks@, r as int + 1);
            lemma_prefix_step_all(goals@, tasks@, r as int);
        }
        let skipped = str_eq(t.status.as_str(), "skipped");
        let found = if skipped {
            None
        } else {
            find_goal(goals, &t.goal_id)
        };
        match found {
            Some(gi) => {
                let marks = subtree_marks(goals, par, gi);
                let ghost base_plan = plan@;
                let ghost base_actual = actual@;
                proof {
                    assert(!skipped);
                    assert forall|x: int| 0 <= x < n implies abs(#[trigger] base_plan[x] as int) + abs(
                        t.plan_qty as int,
                    ) <= i64::MAX && abs(base_actual[x] as int) + abs(t.actual_qty as int) <= i64::MAX by {
                        assert(abs(plan@[x] as int) <= plan_size(tasks@.subrange(0, r as int)));
                    }
                }
                let mut g: usize = 0;
                while g < n
                    invariant
                        n == goals@.len(),
                        g <= n,
                        marks@.len() == n,
                        plan@.len() == n,
                        actual@.len() == n,
                        base_plan.len() == n,
                        base_actual.len() == n,
                        forall|x: int|
                            0 <= x < n ==> abs(#[trigger] base_plan[x] as int) + abs(t.plan_qty as int) <= i64::MAX && abs(
                                base_actual[x] as int,
                            ) + abs(t.actual_qty as int) <= i64::MAX,
                        forall|x: int|
                            0 <= x < n ==> #[trigger] plan@[x] == (if x < g && marks@[x] {
                                base_plan[x] + t.plan_qty
                            } else {
                                base_plan[x] as int
                            }) && actual@[x] == (if x < g && marks@[x] {
                                base_actual[x] + t.actual_qty
                            } else {
                                base_actual[x] as int
                            }),
                    decreases n - g,
                {
                    if marks[g] {
                        let np = plan[g] + t.plan_qty;
                        let na = actual[g] + t.actual_qty;
                        plan.set(g, np);
                        actual.set(g, na);
                    }
                    g = g + 1;
                }
                proof {
                    assert forall|x: int| 0 <= x < n implies counts(goals@, x, tasks@[r as int]) == marks@[x] by {}
                }
            },
            None => {
                proof {
                    assert forall|x: int| 0 <= x < n implies !counts(goals@, x, tasks@[r as int]) by {}
                }
            },
        }
        r = r + 1;
    }
    proof {
        assert(tasks@.subrange(0, m as int) =~= tasks@);
        assert forall|g: int| 0 <= g < n implies #[trigger] actual@[g] == actual_total(goals@, tasks@, g) by {
            assert(plan@[g] == plan_total(goals@, tasks@, g));
        }
    }
    (plan, actual)
}

/// Whether the goal with id `id` is done on its own.
fn own_done_for(goals: &Vec<Goal>, tasks: &Vec<Task>, id: &String) -> (r: bool)
    ensures
        r == own_done_id(goals@, tasks@, id@),
{
    let mut has_own = false;
    let mut all_done = true;
    let mut k: usize = 0;
    while k < tasks.len()
        invariant
            k <= tasks@.len(),
            has_own == exists|q: int|
                0 <= q < k && #[trigger] tasks@[q].goal_id@ == id@ && tasks@[q].status@ != "skipped"@,
            all_done == forall|q: int|
                0 <= q < k && #[trigger] tasks@[q].goal_id@ == id@ ==> (tasks@[q].status@ == "done"@
                    || tasks@[q].status@ == "skipped"@),
        decreases tasks@.len() - k,
    {
        let t = &tasks[k];
        let mine = t.goal_id == *id;
        let skipped = str_eq(t.status.as_str(), "skipped");
        let done = str_eq(t.status.as_str(), "done");
        if mine && !skipped {
            has_own = true;
        }
        if mine && !(skipped || done) {
            all_done = false;
        }
        proof {
            assert(tasks@[k as int] == *t);
            if has_own && !(mine && !skipped) {
                let q = choose|q: int| 0 <= q < k && #[trigger] tasks@[q].goal_id@ == id@ && tasks@[q].status@ != "skipped"@;
                assert(0 <= q < k + 1);
            }
            if exists|q: int| 0 <= q < k + 1 && #[trigger] tasks@[q].goal_id@ == id@ && tasks@[q].status@ != "skipped"@ {
                let q = choose|q: int| 0 <= q < k + 1 && #[trigger] tasks@[q].goal_id@ == id@ && tasks@[q].status@ != "skipped"@;
                if q < k {
                    assert(has_own);
                }
            }
            if !all_done && !(mine && !(skipped || done)) {
                let q = choose|q: int|
                    !(0 <= q < k && #[trigger] tasks@[q].goal_id@ == id@ ==> (tasks@[q].status@ == "done"@
                        || tasks@[q].status@ == "skipped"@));
                assert(0 <= q < k + 1);
            }
        }
        k = k + 1;
    }
    let mut has_child = false;
    let mut c: usize = 0;
    while c < goals.len()
        invariant
            c <= goals@.len(),
            has_child == exists|q: int|
                0 <= q < c && (#[trigger] goals@[q].parent_id) is Some && goals@[q].parent_id->0@ == id@,
        decreases goals@.len() - c,
    {
        let hit = match &goals[c].parent_id {
            Some(p) => *p == *id,
            None => false,
        };
        if hit {
            has_child = true;
        }
        proof {
            if has_child && !hit {
                let q = choose|q: int| 0 <= q < c && (#[trigger] goals@[q].parent_id) is Some && goals@[q].parent_id->0@ == id@;
                assert(0 <= q < c + 1);
            }
            if exists|q: int| 0 <= q < c + 1 && (#[trigger] goals@[q].parent_id) is Some && goals@[q].parent_id->0@ == id@ {
                let q = choose|q: int| 0 <= q < c + 1 && (#[trigger] goals@[q].parent_id) is Some && goals@[q].parent_id->0@ == id@;
                if q < c {
                    assert(has_child);
                }
            }
        }
        c = c + 1;
    }
    (has_own || has_child) && all_done
}

/// Whether each goal is completed.
fn completion_flags(goals: &Vec<Goal>, tasks: &Vec<Task>, par: &Vec<Option<usize>>) -> (r: Vec<bool>)
    requires
        par@.len() == goals@.len(),
        forall|x: int|
            0 <= x < goals@.len() ==> (match #[trigger] par@[x] {
                Some(p) => p < goals@.len() && parent_of(goals@, x) == Some(p as int),
                None => parent_of(goals@, x) is None,
            }),
    ensures
        r@.len() == goals@.len(),
        forall|g: int| 0 <= g < goals@.len() ==> #[trigger] r@[g] == goal_completed(goals@, tasks@, g),
{
    let n = goals.len();
    let mut ok: Vec<bool> = Vec::new();
    let mut comp: Vec<bool> = Vec::new();
    let mut d: usize = 0;
    while d < n
        invariant
            n == goals@.len(),
            d <= n,
            ok@.len() == d,
            comp@.len() == d,
            forall|x: int| 0 <= x < d ==> #[trigger] ok@[x] == goal_own_done(goals@, tasks@, x) && comp@[x],
        decreases n - d,
    {
        let o = own_done_for(goals, tasks, &goals[d].id);
        ok.push(o);
        comp.push(true);
        d = d + 1;
    }
    proof {
        assert forall|g: int| 0 <= g < n implies #[trigger] comp@[g] by {
            assert(ok@[g] == goal_own_done(goals@, tasks@, g));
        }
    }
    let mut d: usize = 0;
    while d < n
        invariant
            n == goals@.len(),
            d <= n,
            par@.len() == n,
            forall|x: int|
                0 <= x < n ==> (match #[trigger] par@[x] {
                    Some(p) => p < n && parent_of(goals@, x) == Some(p as int),
                    None => parent_of(goals@, x) is None,
                }),
            ok@.len() == n,
            comp@.len() == n,
            forall|x: int| 0 <= x < n ==> #[trigger] ok@[x] == goal_own_done(goals@, tasks@, x),
            forall|g: int|
                0 <= g < n ==> #[trigger] comp@[g] == forall|d2: int|
                    0 <= d2 < d && #[trigger] in_subtree(goals@, g, d2) ==> goal_own_done(goals@, tasks@, d2),
        decreases n - d,
    {
        let ghost old_comp = comp@;
        if !ok[d] {
            let marks = subtree_marks(goals, par, d);
            let mut g: usize = 0;
            while g < n
                invariant
                    n == goals@.len(),
                    g <= n,
                    marks@.len() == n,
                    comp@.len() == n,
                    old_comp.len() == n,
                    forall|x: int|
                        0 <= x < n ==> #[trigger] comp@[x] == (if x < g && marks@[x] {
                            false
                        } else {
                            old_comp[x]
                        }),
                decreases n - g,
            {
                if marks[g] {
                    comp.set(g, false);
                }
                g = g + 1;
            }
        }
        proof {
            assert forall|g: int| 0 <= g < n implies #[trigger] comp@[g] == forall|d2: int|
                0 <= d2 < d + 1 && #[trigger] in_subtree(goals@, g, d2) ==> goal_own_done(goals@, tasks@, d2) by {
                assert(old_comp[g] == forall|d2: int|
                    0 <= d2 < d && #[trigger] in_subtree(goals@, g, d2) ==> goal_own_done(goals@, tasks@, d2));
                if ok@[d as int] {
                    assert(goal_own_done(goals@, tasks@, d as int));
                }
            }
        }
        d = d + 1;
    }
    comp
}

/// The progress of every goal, in the order of `goals`: the planned and
/// done amounts of all tasks that are not skipped below each goal (its own
/// and those of its sub-goals at any depth), and whether the goal is
/// completed (every goal below it, itself included, has a task that is not
/// skipped or a sub-goal, and all its own tasks are done or skipped).
pub fn calc_all_goals_progress(goals: &Vec<Goal>, tasks: &Vec<Task>) -> (r: Vec<ProgressInfo>)
    requires
        goal_ids_distinct(goals@),
        plan_size(tasks@) <= i64::MAX,
        actual_size(tasks@) <= i64::MAX,
    ensures
        r@.len() == goals@.len(),
        forall|g: int| 0 <= g < goals@.len() ==> progress_of(#[trigger] r@[g], goals@, tasks@, g),
{
    let par = parent_table(goals);
    let (plan, actual) = goal_totals(goals, tasks, &par);
    let comp = completion_flags(goals, tasks, &par);
    let n = goals.len();
    let mut out: Vec<ProgressInfo> = Vec::new();
    let mut g: usize = 0;
    while g < n
        invariant
            n == goals@.len(),
            g <= n,
            plan@.len() == n,
            actual@.len() == n,
            comp@.len() == n,
            forall|x: int| 0 <= x < n ==> #[trigger] plan@[x] == plan_total(goals@, tasks@, x),
            forall|x: int| 0 <= x < n ==> #[trigger] actual@[x] == actual_total(goals@, tasks@, x),
            forall|x: int| 0 <= x < n ==> #[trigger] comp@[x] == goal_completed(goals@, tasks@, x),
            out@.len() == g,
            forall|x: int| 0 <= x < g ==> progress_of(#[trigger] out@[x], goals@, tasks@, x),
        decreases n - g,
    {
        out.push(
            ProgressInfo {
                id: goals[g].id.clone(),
                name: goals[g].name.clone(),
                total_plan: plan[g],
                total_actual: actual[g],
                is_completed: comp[g],
            },
        );
        g = g + 1;
    }
    out
}

/// The progress of the goal with id `goal_id`; a missing goal is an error.
pub fn calc_goal_progress(goals: &Vec<Goal>, tasks: &Vec<Task>, goal_id: &str) -> (r: AppResult<ProgressInfo>)
    requires
        goal_ids_distinct(goals@),
        plan_size(tasks@) <= i64::MAX,
        actual_size(tasks@) <= i64::MAX,
    ensures
        goal_index(goals@, goal_id@) is None ==> r is Err && is_not_found_err(
            r->Err_0,
            not_found_text("目标"@, goal_id@),
        ),
        goal_index(goals@, goal_id@) is Some ==> r is Ok && progress_of(
            r->Ok_0,
            goals@,
            tasks@,
            goal_index(goals@, goal_id@)->0,
        ),
{
    let id = String::from_str(goal_id);
    match find_goal(goals, &id) {
        None => Err(not_found("目标", goal_id)),
        Some(g) => {
            let par = parent_table(goals);
            let (plan, actual) = goal_totals(goals, tasks, &par);
            let comp = completion_flags(goals, tasks, &par);
            Ok(
                ProgressInfo {
                    id: goals[g].id.clone(),
                    name: goals[g].name.clone(),
                    total_plan: plan[g],
                    total_actual: actual[g],
                    is_completed: comp[g],
                },
            )
        },
    }
}

/// Line `j` of `v` is the progress of the goal `j` steps above goal `g`.
pub open spec fn ancestor_line(v: Seq<ProgressInfo>, goals: Seq<Goal>, tasks: Seq<Task>, g: int, j: int) -> bool {
    up(goals, g, j as nat) is Some && progress_of(v[j], goals, tasks, up(goals, g, j as nat)->0)
}

/// The progress of the goal with id `goal_id` and of each goal above it, in
/// order: the goal itself, its parent, its grandparent, up to a top-level
/// goal (at most as many as there are goals); a missing goal is an error.
pub fn calc_goal_ancestors_progress(goals: &Vec<Goal>, tasks: &Vec<Task>, goal_id: &str) -> (r: AppResult<
    Vec<ProgressInfo>,
>)
    requires
        goal_ids_distinct(goals@),
        plan_size(tasks@) <= i64::MAX,
        actual_size(tasks@) <= i64::MAX,
    ensures
        goal_index(goals@, goal_id@) is None ==> r is Err && is_not_found_err(
            r->Err_0,
            not_found_text("目标"@, goal_id@),
        ),
        goal_index(goals@, goal_id@) is Some ==> r is Ok && ({
            let g = goal_index(goals@, goal_id@)->0;
            let v = r->Ok_0@;
            &&& 1 <= v.len() <= goals@.len()
            &&& forall|k: int| 0 <= k < v.len() ==> #[trigger] ancestor_line(v, goals@, tasks@, g, k)
            &&& v.len() == goals@.len() || up(goals@, g, v.len() as nat) is None
        }),
{
    let id = String::from_str(goal_id);
    let g = match find_goal(goals, &id) {
        None => {
            return Err(not_found("目标", goal_id));
        },
        Some(g) => g,
    };
    let all = calc_all_goals_progress(goals, tasks);
    let par = parent_table(goals);
    let n = goals.len();
    let mut out: Vec<ProgressInfo> = Vec::new();
    let mut cur: Option<usize> = Some(g);
    let mut k: usize = 0;
    while k < n && cur.is_some()
        invariant
            n == goals@.len(),
            g < n,
            k <= n,
            all@.len() == n,
            forall|x: int| 0 <= x < n ==> progress_of(#[trigger] all@[x], goals@, tasks@, x),
            par@.len() == n,
            forall|d: int|
                0 <= d < n ==> (match #[trigger] par@[d] {
                    Some(p) => p < n && parent_of(goals@, d) == Some(p as int),
                    None => parent_of(goals@, d) is None,
                }),
            out@.len() == k,
            k == 0 ==> cur == Some(g),
            match cur {
                Some(c) => c < n && up(goals@, g as int, k as nat) == Some(c as int),
                None => up(goals@, g as int, k as nat) is None,
            },
            forall|j: int| 0 <= j < k ==> #[trigger] ancestor_line(out@, goals@, tasks@, g as int, j),
        decreases n - k,
    {
        let c = cur.unwrap();
        let ghost before = out@;
        let p = &all[c];
        assert(progress_of(all@[c as int], goals@, tasks@, c as int));
        out.push(
            ProgressInfo {
                id: p.id.clone(),
                name: p.name.clone(),
                total_plan: p.total_plan,
                total_actual: p.total_actual,
                is_completed: p.is_completed,
            },
        );
        proof {
            assert(out@[k as int] == all@[c as int]);
            assert forall|j: int| 0 <= j < k + 1 implies #[trigger] ancestor_line(out@, goals@, tasks@, g as int, j) by {
                if j < k {
                    assert(out@[j] == before[j]);
                    assert(ancestor_line(before, goals@, tasks@, g as int, j));
                }
            }
            assert(up(goals@, g as int, (k + 1) as nat) == parent_of(goals@, c as int));
        }
        cur = par[c];
        k = k + 1;
    }
    Ok(out)
}

/// Whether the goal with id `goal_id` is completed. For an id that no goal
/// has, the tasks and sub-goals that name it are judged the same way.
pub fn check_goal_completed(goals: &Vec<Goal>, tasks: &Vec<Task>, goal_id: &str) -> (r: bool)
    requires
        goal_ids_distinct(goals@),
    ensures
        goal_index(goals@, goal_id@) is Some ==> r == goal_completed(goals@, tasks@, goal_index(goals@, goal_id@)->0),
        goal_index(goals@, goal_id@) is None ==> r == (own_done_id(goals@, tasks@, goal_id@) && forall|c: int|
            0 <= c < goals@.len() && (#[trigger] goals@[c].parent_id) is Some && goals@[c].parent_id->0@ == goal_id@
                ==> goal_completed(goals@, tasks@, c)),
{
    let id = String::from_str(goal_id);
    let par = parent_table(goals);
    let comp = completion_flags(goals, tasks, &par);
    match find_goal(goals, &id) {
        Some(g) => comp[g],
        None => {
            let own = own_done_for(goals, tasks, &id);
            let n = goals.len();
            let mut all = true;
            let mut c: usize = 0;
            while c < n
                invariant
                    n == goals@.len(),
                    c <= n,
                    comp@.len() == n,
                    forall|x: int| 0 <= x < n ==> #[trigger] comp@[x] == goal_completed(goals@, tasks@, x),
                    all == forall|q: int|
                        0 <= q < c && (#[trigger] goals@[q].parent_id) is Some && goals@[q].parent_id->0@ == id@
                            ==> goal_completed(goals@, tasks@, q),
                decreases n - c,
            {
                let hit = match &goals[c].parent_id {
                    Some(p) => *p == id,
                    None => false,
                };
                if hit && !comp[c] {
                    all = false;
                }
                proof {
                    if !all && !(hit && !comp@[c as int]) {
                        let q = choose|q: int|
                            !(0 <= q < c && (#[trigger] goals@[q].parent_id) is Some && goals@[q].parent_id->0@ == id@
                                ==> goal_completed(goals@, tasks@, q));
                        assert(0 <= q < c + 1);
                    }
                }
                c = c + 1;
            }
            own && all
        },
    }
}

} // verus!
