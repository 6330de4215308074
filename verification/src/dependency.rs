//! Dependencies between tasks: ordering the tasks of a goal so that every
//! task comes after the tasks it depends on, and detecting dependency cycles.

use vstd::prelude::*;
use vstd::set_lib::{lemma_int_range, lemma_len_subset, set_int_range};

use crate::models::{Task, TaskDependency};

verus! {

/// The prerequisites of one task: `task_id` depends on each of `depends_on`.
#[derive(Debug)]
pub struct DepList {
    pub task_id: String,
    pub depends_on: Vec<String>,
}

/// No two tasks share an id (ids are the tasks' keys).
pub open spec fn ids_distinct(tasks: Seq<Task>) -> bool {
    forall|a: int, b: int|
        0 <= a < tasks.len() && 0 <= b < tasks.len() && a != b ==> #[trigger] tasks[a].id@ != #[trigger] tasks[b].id@
}

/// No two entries of a dependency map share a key.
pub open spec fn keys_distinct(deps: Seq<DepList>) -> bool {
    forall|a: int, b: int|
        0 <= a < deps.len() && 0 <= b < deps.len() && a != b ==> #[trigger] deps[a].task_id@
            != #[trigger] deps[b].task_id@
}

/// The map has an entry for `id`.
pub open spec fn has_entry(deps: Seq<DepList>, id: Seq<char>) -> bool {
    exists|k: int| 0 <= k < deps.len() && #[trigger] deps[k].task_id@ == id
}

/// The position of the entry for `id`.
pub open spec fn entry_of(deps: Seq<DepList>, id: Seq<char>) -> int {
    choose|k: int| 0 <= k < deps.len() && #[trigger] deps[k].task_id@ == id
}

/// The map lists `other` among the prerequisites of `id`.
pub open spec fn listed_dep(deps: Seq<DepList>, id: Seq<char>, other: Seq<char>) -> bool {
    has_entry(deps, id) && exists|m: int|
        0 <= m < deps[entry_of(deps, id)].depends_on@.len() && #[trigger] deps[entry_of(
            deps,
            id,
        )].depends_on@[m]@ == other
}

/// Task `i` depends on task `j`, both among `tasks`.
pub open spec fn depends(tasks: Seq<Task>, deps: Seq<DepList>, i: int, j: int) -> bool {
    &&& 0 <= i < tasks.len()
    &&& 0 <= j < tasks.len()
    &&& listed_dep(deps, tasks[i].id@, tasks[j].id@)
}

/// `rank` puts every task above the tasks it depends on; such a ranking
/// exists exactly when the dependencies among `tasks` have no cycle.
pub open spec fn is_ranking(tasks: Seq<Task>, deps: Seq<DepList>, rank: spec_fn(int) -> nat) -> bool {
    forall|i: int, j: int| #[trigger] depends(tasks, deps, i, j) ==> rank(j) < rank(i)
}

/// No task among `tasks` depends on another task among them.
pub open spec fn no_deps(tasks: Seq<Task>, deps: Seq<DepList>) -> bool {
    forall|i: int, j: int| !#[trigger] depends(tasks, deps, i, j)
}

/// `p` lists each index below `n` exactly once.
pub open spec fn is_perm(p: Seq<int>, n: int) -> bool {
    &&& p.len() == n
    &&& forall|k: int| 0 <= k < n ==> 0 <= #[trigger] p[k] < n
    &&& forall|a: int, b: int| 0 <= a < n && 0 <= b < n && a != b ==> #[trigger] p[a] != #[trigger] p[b]
}

proof fn lemma_distinct_below(s: Seq<usize>, n: int)
    requires
        s.no_duplicates(),
        n >= 0,
        forall|i: int| 0 <= i < s.len() ==> #[trigger] s[i] < n,
    ensures
        s.len() <= n,
{
    let si = s.map_values(|x: usize| x as int);
    assert(si.no_duplicates()) by {
        assert forall|a: int, b: int| 0 <= a < si.len() && 0 <= b < si.len() && a != b implies si[a] != si[b] by {
            assert(s[a] != s[b]);
        }
    }
    si.unique_seq_to_set();
    lemma_int_range(0, n);
    assert(si.to_set().subset_of(set_int_range(0, n))) by {
        assert forall|x: int| si.to_set().contains(x) implies set_int_range(0, n).contains(x) by {
            let k = choose|k: int| 0 <= k < si.len() && si[k] == x;
            assert(s[k] < n);
        }
    }
    lemma_len_subset(si.to_set(), set_int_range(0, n));
}

fn find_entry(deps: &Vec<DepList>, id: &String) -> (r: Option<usize>)
    requires
        keys_distinct(deps@),
    ensures
        r is Some ==> r->0 < deps@.len() && deps@[r->0 as int].task_id@ == id@ && r->0 == entry_of(deps@, id@),
        r is None ==> !has_entry(deps@, id@),
{
    let mut k: usize = 0;
    while k < deps.len()
        invariant
            k <= deps@.len(),
            keys_distinct(deps@),
            forall|a: int| 0 <= a < k ==> #[trigger] deps@[a].task_id@ != id@,
        decreases deps@.len() - k,
    {
        if deps[k].task_id == *id {
            assert(has_entry(deps@, id@));
            let ghost c = entry_of(deps@, id@);
            assert(deps@[c].task_id@ == id@);
            assert(deps@[k as int].task_id@ == id@);
            proof {
                if c != k as int {
                    assert(deps@[c].task_id@ != deps@[k as int].task_id@);
                }
            }
            assert(c == k);
            return Some(k);
        }
        k = k + 1;
    }
    None
}

fn find_task(tasks: &Vec<Task>, id: &String) -> (r: Option<usize>)
    requires
        ids_distinct(tasks@),
    ensures
        r is Some ==> r->0 < tasks@.len() && tasks@[r->0 as int].id@ == id@,
        r is None ==> forall|j: int| 0 <= j < tasks@.len() ==> #[trigger] tasks@[j].id@ != id@,
{
    let mut k: usize = 0;
    while k < tasks.len()
        invariant
            k <= tasks@.len(),
            forall|a: int| 0 <= a < k ==> #[trigger] tasks@[a].id@ != id@,
        decreases tasks@.len() - k,
    {
        if tasks[k].id == *id {
            return Some(k);
        }
        k = k + 1;
    }
    None
}

/// The indices of the tasks that task `i` depends on.
fn deps_of(tasks: &Vec<Task>, deps: &Vec<DepList>, i: usize) -> (r: Vec<usize>)
    requires
        ids_distinct(tasks@),
        keys_distinct(deps@),
        i < tasks@.len(),
    ensures
        forall|k: int| 0 <= k < r@.len() ==> (#[trigger] r@[k]) < tasks@.len(),
        forall|j: int| 0 <= j < tasks@.len() ==> (depends(tasks@, deps@, i as int, j) <==> r@.contains(j as usize)),
{
    let mut out: Vec<usize> = Vec::new();
    let n = tasks.len();
    match find_entry(deps, &tasks[i].id) {
        None => {
            assert forall|j: int| 0 <= j < tasks@.len() implies !depends(tasks@, deps@, i as int, j) by {}
            out
        },
        Some(k) => {
            let list = &deps[k].depends_on;
            let ghost key = tasks@[i as int].id@;
            let mut m: usize = 0;
            while m < list.len()
                invariant
                    ids_distinct(tasks@),
                    keys_distinct(deps@),
                    i < tasks@.len(),
                    n == tasks@.len(),
                    k == entry_of(deps@, key),
                    key == tasks@[i as int].id@,
                    has_entry(deps@, key),
                    *list == deps@[k as int].depends_on,
                    m <= list@.len(),
                    forall|q: int| 0 <= q < out@.len() ==> (#[trigger] out@[q]) < tasks@.len(),
                    forall|j: int|
                        #![trigger out@.contains(j as usize)]
                        0 <= j < tasks@.len() ==> ((exists|mm: int| 0 <= mm < m && #[trigger] list@[mm]@ == tasks@[j].id@)
                            <==> out@.contains(j as usize)),
                decreases list@.len() - m,
            {
                let ghost prev = out@;
                match find_task(tasks, &list[m]) {
                    Some(j) => {
                        out.push(j);
                        assert forall|jj: int|
                            #![trigger out@.contains(jj as usize)]
                            0 <= jj < tasks@.len() implies ((exists|mm: int|
                                0 <= mm < m + 1 && #[trigger] list@[mm]@ == tasks@[jj].id@) <==> out@.contains(
                                jj as usize,
                            )) by {
                            if out@.contains(jj as usize) && !prev.contains(jj as usize) {
                                let q = choose|q: int| 0 <= q < out@.len() && out@[q] == jj as usize;
                                assert(out@ == prev.push(j));
                                if q < prev.len() {
                                    assert(prev[q] == jj as usize);
                                    assert(prev.contains(jj as usize));
                                }
                                assert(q == prev.len());
                                assert(jj as usize == j);
                                assert(jj == j);
                                assert(list@[m as int]@ == tasks@[jj].id@);
                            }
                            if exists|mm: int| 0 <= mm < m + 1 && #[trigger] list@[mm]@ == tasks@[jj].id@ {
                                let mm = choose|mm: int| 0 <= mm < m + 1 && #[trigger] list@[mm]@ == tasks@[jj].id@;
                                if mm == m {
                                    assert(tasks@[jj].id@ == tasks@[j as int].id@);
                                    assert(jj == j);
                                    assert(out@[out@.len() - 1] == j);
                                } else {
                                    assert(prev.contains(jj as usize));
                                    let q = choose|q: int| 0 <= q < prev.len() && prev[q] == jj as usize;
                                    assert(out@[q] == jj as usize);
                                }
                            }
                            if prev.contains(jj as usize) {
                                let q = choose|q: int| 0 <= q < prev.len() && prev[q] == jj as usize;
                                assert(out@[q] == jj as usize);
                            }
                        }
                    },
                    None => {
                        assert forall|jj: int|
                            #![trigger out@.contains(jj as usize)]
                            0 <= jj < tasks@.len() implies ((exists|mm: int|
                                0 <= mm < m + 1 && #[trigger] list@[mm]@ == tasks@[jj].id@) <==> out@.contains(
                                jj as usize,
                            )) by {
                            if exists|mm: int| 0 <= mm < m + 1 && #[trigger] list@[mm]@ == tasks@[jj].id@ {
                                let mm = choose|mm: int| 0 <= mm < m + 1 && #[trigger] list@[mm]@ == tasks@[jj].id@;
                                if mm == m {
                                    assert(tasks@[jj].id@ != list@[m as int]@);
                                }
                            }
                        }
                    },
                }
                m = m + 1;
            }
            assert forall|j: int| 0 <= j < tasks@.len() implies (depends(tasks@, deps@, i as int, j) <==> out@.contains(j as usize)) by {
                if out@.contains(j as usize) {
                    let q = choose|q: int| 0 <= q < out@.len() && out@[q] == j as usize;
                    assert(out@[q] < tasks@.len());
                    assert(j < tasks@.len());
                    assert(exists|mm: int| 0 <= mm < m && #[trigger] list@[mm]@ == tasks@[j].id@);
                    let mm = choose|mm: int| 0 <= mm < m && #[trigger] list@[mm]@ == tasks@[j].id@;
                    assert(list@ == deps@[k as int].depends_on@);
                    assert(deps@[k as int].depends_on@[mm]@ == tasks@[j].id@);
                    assert(deps@[entry_of(deps@, key)].depends_on@[mm]@ == tasks@[j].id@);
                }
                if depends(tasks@, deps@, i as int, j) {
                    let mm = choose|mm: int|
                        0 <= mm < deps@[entry_of(deps@, key)].depends_on@.len() && #[trigger] deps@[entry_of(
                            deps@,
                            key,
                        )].depends_on@[mm]@ == tasks@[j].id@;
                    assert(list@[mm]@ == tasks@[j].id@);
                }
            }
            out
        },
    }
}

} // verus!

verus! {

/// Task `a` comes before task `b` in the tie-break order: by `sort_order`,
/// then by position in the input.
pub open spec fn order_before(tasks: Seq<Task>, a: int, b: int) -> bool {
    tasks[a].sort_order < tasks[b].sort_order || (tasks[a].sort_order == tasks[b].sort_order && a < b)
}

/// `s` is strictly increasing in the tie-break order.
pub open spec fn sorted_by_order(tasks: Seq<Task>, s: Seq<usize>) -> bool {
    forall|a: int, b: int| 0 <= a < b < s.len() ==> order_before(tasks, #[trigger] s[a] as int, #[trigger] s[b] as int)
}

/// Sorts indices of `tasks` in the tie-break order (by `sort_order`, ties
/// kept in input order).
fn sort_by_order(tasks: &Vec<Task>, idx: Vec<usize>) -> (r: Vec<usize>)
    requires
        forall|k: int| 0 <= k < idx@.len() ==> (#[trigger] idx@[k]) < tasks@.len(),
        idx@.no_duplicates(),
    ensures
        r@.len() == idx@.len(),
        forall|x: usize| #[trigger] r@.contains(x) <==> idx@.contains(x),
        sorted_by_order(tasks@, r@),
        r@.no_duplicates(),
{
    let mut r: Vec<usize> = Vec::new();
    let mut k: usize = 0;
    while k < idx.len()
        invariant
            k <= idx@.len(),
            forall|q: int| 0 <= q < idx@.len() ==> (#[trigger] idx@[q]) < tasks@.len(),
            idx@.no_duplicates(),
            r@.len() == k,
            forall|x: usize| #[trigger] r@.contains(x) <==> idx@.subrange(0, k as int).contains(x),
            sorted_by_order(tasks@, r@),
            r@.no_duplicates(),
        decreases idx@.len() - k,
    {
        let x = idx[k];
        let xo = tasks[x].sort_order;
        proof {
            assert forall|q: int| 0 <= q < r@.len() implies (#[trigger] r@[q]) < tasks@.len() by {
                assert(r@.contains(r@[q]));
                assert(idx@.subrange(0, k as int).contains(r@[q]));
            }
        }
        let mut p: usize = 0;
        while p < r.len() && (tasks[r[p]].sort_order < xo || (tasks[r[p]].sort_order == xo && r[p] < x))
            invariant
                p <= r@.len(),
                x < tasks@.len(),
                xo == tasks@[x as int].sort_order,
                forall|q: int| 0 <= q < r@.len() ==> (#[trigger] r@[q]) < tasks@.len(),
                forall|q: int| 0 <= q < p ==> order_before(tasks@, #[trigger] r@[q] as int, x as int),
            decreases r@.len() - p,
        {
            p = p + 1;
        }
        proof {
            assert(!r@.contains(x)) by {
                if r@.contains(x) {
                    assert(idx@.subrange(0, k as int).contains(x));
                    let q = choose|q: int| 0 <= q < k && idx@.subrange(0, k as int)[q] == x;
                    assert(idx@[q] == idx@[k as int]);
                }
            }
        }
        let ghost old_r = r@;
        r.insert(p, x);
        proof {
            let sub0 = idx@.subrange(0, k as int);
            let sub1 = idx@.subrange(0, k as int + 1);
            assert(r@ == old_r.insert(p as int, x));
            assert forall|q: int| p <= q < old_r.len() implies order_before(tasks@, x as int, #[trigger] old_r[q] as int) by {
                if q == p as int {
                    assert(!(p < old_r.len() && (tasks@[old_r[p as int] as int].sort_order < xo || (tasks@[old_r[p as int] as int].sort_order == xo && old_r[p as int] < x))));
                    assert(old_r[q] != x);
                } else {
                    assert(order_before(tasks@, old_r[p as int] as int, old_r[q] as int));
                    assert(old_r[p as int] != x);
                }
            }
            assert forall|a: int, b: int| 0 <= a < b < r@.len() implies order_before(tasks@, #[trigger] r@[a] as int, #[trigger] r@[b] as int) by {
                if a < p && b < p {
                    assert(r@[a] == old_r[a] && r@[b] == old_r[b]);
                } else if a < p && b == p {
                    assert(r@[a] == old_r[a]);
                } else if a < p && b > p {
                    assert(r@[a] == old_r[a] && r@[b] == old_r[b - 1]);
                    assert(order_before(tasks@, old_r[a] as int, x as int));
                    assert(order_before(tasks@, x as int, old_r[b - 1] as int));
                } else if a == p {
                    assert(r@[b] == old_r[b - 1]);
                } else {
                    assert(r@[a] == old_r[a - 1] && r@[b] == old_r[b - 1]);
                }
            }
            assert forall|y: usize| #[trigger] r@.contains(y) <==> sub1.contains(y) by {
                if r@.contains(y) {
                    let q = choose|q: int| 0 <= q < r@.len() && r@[q] == y;
                    if y != x {
                        if q < p {
                            assert(old_r[q] == y);
                        } else {
                            assert(old_r[q - 1] == y);
                        }
                        assert(old_r.contains(y));
                        assert(sub0.contains(y));
                        let w = choose|w: int| 0 <= w < k && sub0[w] == y;
                        assert(sub1[w] == y);
                    } else {
                        assert(sub1[k as int] == y);
                    }
                }
                if sub1.contains(y) {
                    let w = choose|w: int| 0 <= w < k + 1 && sub1[w] == y;
                    if w < k {
                        assert(sub0[w] == y);
                        assert(old_r.contains(y));
                        let q = choose|q: int| 0 <= q < old_r.len() && old_r[q] == y;
                        if q < p {
                            assert(r@[q] == y);
                        } else {
                            assert(r@[q + 1] == y);
                        }
                    } else {
                        assert(r@[p as int] == x);
                    }
                }
            }
            assert(r@.no_duplicates()) by {
                assert forall|a: int, b: int| 0 <= a < r@.len() && 0 <= b < r@.len() && a != b implies r@[a] != r@[b] by {
                    if a < b {
                        assert(order_before(tasks@, r@[a] as int, r@[b] as int));
                    } else {
                        assert(order_before(tasks@, r@[b] as int, r@[a] as int));
                    }
                }
            }
        }
        k = k + 1;
    }
    proof {
        assert(idx@.subrange(0, idx@.len() as int) == idx@);
    }
    r
}

} // verus!

verus! {

/// Every task that task `i` depends on is marked in `done`.
pub open spec fn all_deps_done(tasks: Seq<Task>, deps: Seq<DepList>, done: Seq<bool>, i: int) -> bool {
    forall|j: int| 0 <= j < tasks.len() && #[trigger] depends(tasks, deps, i, j) ==> done[j]
}

/// Task `x` is waiting, depends on `t`, and all its prerequisites are done.
pub open spec fn released(table: Seq<Vec<usize>>, done: Seq<bool>, t: usize, x: int) -> bool {
    &&& table[x]@.contains(t)
    &&& !done[x]
    &&& forall|k: int| 0 <= k < table[x]@.len() ==> done[#[trigger] table[x]@[k] as int]
}

/// Task `x` depends on no task among `tasks`.
pub open spec fn prereq_free(tasks: Seq<Task>, deps: Seq<DepList>, x: int) -> bool {
    forall|j: int| !#[trigger] depends(tasks, deps, x, j)
}

/// The first `m` positions of `p` are exactly the tasks that depend on no
/// task among `tasks`, in the tie-break order.
pub open spec fn free_first(tasks: Seq<Task>, deps: Seq<DepList>, p: Seq<int>, m: int) -> bool {
    &&& 0 <= m <= p.len()
    &&& forall|a: int| 0 <= a < p.len() ==> (a < m <==> #[trigger] prereq_free(tasks, deps, p[a]))
    &&& forall|a: int, b: int| 0 <= a < b < m ==> order_before(tasks, #[trigger] p[a], #[trigger] p[b])
}

/// Each of the first `m` positions of `p` comes after every task it depends on.
pub open spec fn head_after_prereqs(tasks: Seq<Task>, deps: Seq<DepList>, p: Seq<int>, m: int) -> bool {
    forall|a: int, j: int|
        0 <= a < m && #[trigger] depends(tasks, deps, p[a], j) ==> exists|b: int| 0 <= b < a && p[b] == j
}

/// The task at position `a` of `p` depends on a task at position `m` or later.
pub open spec fn depends_on_tail(tasks: Seq<Task>, deps: Seq<DepList>, p: Seq<int>, m: int, a: int) -> bool {
    exists|b: int| m <= b < p.len() && #[trigger] depends(tasks, deps, p[a], p[b])
}

/// Each task from position `m` of `p` on depends on another task from there on.
pub open spec fn tail_held_by_cycle(tasks: Seq<Task>, deps: Seq<DepList>, p: Seq<int>, m: int) -> bool {
    forall|a: int| m <= a < p.len() ==> #[trigger] depends_on_tail(tasks, deps, p, m, a)
}

/// The tasks from position `m` of `p` on come in the tie-break order.
pub open spec fn tail_in_order(tasks: Seq<Task>, p: Seq<int>, m: int) -> bool {
    forall|a: int, b: int| m <= a < b < p.len() ==> order_before(tasks, #[trigger] p[a], #[trigger] p[b])
}

/// The last of the tasks that the task at position `a` of `p` depends on
/// stands at position `h` (`h` is -1 when it depends on none).
pub open spec fn last_prereq_at(tasks: Seq<Task>, deps: Seq<DepList>, p: Seq<int>, a: int, h: int) -> bool {
    &&& -1 <= h < a
    &&& 0 <= h ==> depends(tasks, deps, p[a], p[h])
    &&& forall|b: int| 0 <= b < p.len() && #[trigger] depends(tasks, deps, p[a], p[b]) ==> b <= h
}

/// The first `m` positions of `p` come in the order in which they were
/// released: a task comes before another when its last prerequisite stands
/// earlier, and tasks released by the same task come in the tie-break order.
pub open spec fn released_in_order(tasks: Seq<Task>, deps: Seq<DepList>, p: Seq<int>, m: int) -> bool {
    forall|a: int, b: int, h1: int, h2: int|
        0 <= a < b < m && #[trigger] last_prereq_at(tasks, deps, p, a, h1) && #[trigger] last_prereq_at(
            tasks,
            deps,
            p,
            b,
            h2,
        ) ==> h1 < h2 || (h1 == h2 && order_before(tasks, p[a], p[b]))
}

/// The first `m` positions of `p` are ordered by the dependencies (each
/// task comes after every task it depends on, in the order in which the
/// tasks were released), and the rest are the tasks held back by a cycle:
/// each of them depends on another one of them, and they come in the
/// tie-break order.
pub open spec fn settled_first(tasks: Seq<Task>, deps: Seq<DepList>, p: Seq<int>, m: int) -> bool {
    &&& 0 <= m <= p.len()
    &&& head_after_prereqs(tasks, deps, p, m)
    &&& released_in_order(tasks, deps, p, m)
    &&& tail_held_by_cycle(tasks, deps, p, m)
    &&& tail_in_order(tasks, p, m)
}

/// Ghost bookkeeping of the queue: `rel[a]` is the position of the task whose
/// placement released the task at position `a` (-1 for the tasks without
/// prerequisites), and the queue is ordered by it, then by the tie-break
/// order.
pub open spec fn release_marks(tasks: Seq<Task>, deps: Seq<DepList>, queue: Seq<usize>, rel: Seq<int>, head: int) -> bool {
    &&& rel.len() == queue.len()
    &&& forall|a: int| 0 <= a < queue.len() ==> -1 <= #[trigger] rel[a] < head && rel[a] < a
    &&& forall|a: int|
        0 <= a < queue.len() && 0 <= #[trigger] rel[a] ==> depends(tasks, deps, queue[a] as int, queue[rel[a]] as int)
    &&& forall|a: int, j: int|
        0 <= a < queue.len() && #[trigger] depends(tasks, deps, queue[a] as int, j) ==> exists|c: int|
            0 <= c <= rel[a] && queue[c] == j as usize
    &&& forall|a: int, b: int|
        0 <= a < b < queue.len() ==> #[trigger] rel[a] < #[trigger] rel[b] || (rel[a] == rel[b] && order_before(
            tasks,
            queue[a] as int,
            queue[b] as int,
        ))
}

/// `r` is `tasks` reordered by the position list `p`: the tasks that depend
/// on no other come first, in the tie-break order; then come the tasks
/// released one placement after another, each after every task it depends
/// on and in the order of their release; the tasks held back by a
/// dependency cycle come last, in the tie-break order. Whenever the
/// dependencies have no cycle every task comes after the tasks it depends
/// on, and without any dependency the order is the tie-break order.
pub open spec fn topo_perm_ok(tasks: Seq<Task>, deps: Seq<DepList>, r: Seq<Task>, p: Seq<int>) -> bool {
    &&& is_perm(p, tasks.len() as int)
    &&& exists|m: int| #[trigger] free_first(tasks, deps, p, m)
    &&& exists|m: int| #[trigger] settled_first(tasks, deps, p, m)
    &&& r.len() == tasks.len()
    &&& forall|k: int| 0 <= k < r.len() ==> #[trigger] r[k] == tasks[p[k]]
    &&& forall|rank: spec_fn(int) -> nat|
        #[trigger] is_ranking(tasks, deps, rank) ==> forall|a: int, b: int|
            0 <= a < tasks.len() && 0 <= b < tasks.len() && #[trigger] depends(tasks, deps, p[b], p[a]) ==> a < b
    &&& no_deps(tasks, deps) ==> forall|a: int, b: int|
        0 <= a < b < tasks.len() ==> order_before(tasks, #[trigger] p[a], #[trigger] p[b])
}

/// What `topo_sort_by_dependency` returns.
pub open spec fn topo_result(tasks: Seq<Task>, deps: Seq<DepList>, r: Seq<Task>) -> bool {
    exists|p: Seq<int>| #[trigger] topo_perm_ok(tasks, deps, r, p)
}

fn dep_table(tasks: &Vec<Task>, deps: &Vec<DepList>) -> (t: Vec<Vec<usize>>)
    requires
        ids_distinct(tasks@),
        keys_distinct(deps@),
    ensures
        t@.len() == tasks@.len(),
        forall|i: int, k: int| 0 <= i < t@.len() && 0 <= k < t@[i]@.len() ==> (#[trigger] t@[i]@[k]) < tasks@.len(),
        forall|i: int, j: int|
            0 <= i < tasks@.len() && 0 <= j < tasks@.len() ==> (#[trigger] depends(tasks@, deps@, i, j)
                <==> t@[i]@.contains(j as usize)),
{
    let mut t: Vec<Vec<usize>> = Vec::new();
    let mut i: usize = 0;
    while i < tasks.len()
        invariant
            ids_distinct(tasks@),
            keys_distinct(deps@),
            i <= tasks@.len(),
            t@.len() == i,
            forall|a: int, k: int| 0 <= a < t@.len() && 0 <= k < t@[a]@.len() ==> (#[trigger] t@[a]@[k]) < tasks@.len(),
            forall|a: int, j: int|
                0 <= a < i && 0 <= j < tasks@.len() ==> (#[trigger] depends(tasks@, deps@, a, j)
                    <==> t@[a]@.contains(j as usize)),
        decreases tasks@.len() - i,
    {
        let d = deps_of(tasks, deps, i);
        t.push(d);
        i = i + 1;
    }
    t
}

fn contains_idx(v: &Vec<usize>, x: usize) -> (r: bool)
    ensures
        r == v@.contains(x),
{
    let mut k: usize = 0;
    while k < v.len()
        invariant
            k <= v@.len(),
            forall|q: int| 0 <= q < k ==> v@[q] != x,
        decreases v@.len() - k,
    {
        if v[k] == x {
            assert(v@[k as int] == x);
            return true;
        }
        k = k + 1;
    }
    false
}

fn all_marked(v: &Vec<usize>, done: &Vec<bool>) -> (r: bool)
    requires
        forall|k: int| 0 <= k < v@.len() ==> (#[trigger] v@[k]) < done@.len(),
    ensures
        r == forall|k: int| 0 <= k < v@.len() ==> done@[#[trigger] v@[k] as int],
{
    let mut k: usize = 0;
    while k < v.len()
        invariant
            k <= v@.len(),
            forall|q: int| 0 <= q < v@.len() ==> (#[trigger] v@[q]) < done@.len(),
            forall|q: int| 0 <= q < k ==> done@[#[trigger] v@[q] as int],
        decreases v@.len() - k,
    {
        if !done[v[k]] {
            return false;
        }
        k = k + 1;
    }
    true
}

} // verus!

verus! {

/// One step of collecting, in increasing order, the indices below `i + 1`
/// that pass a test: `i` was appended exactly when `pushed`.
proof fn lemma_filter_step(old: Seq<usize>, new: Seq<usize>, i: usize, pushed: bool)
    requires
        forall|k: int| 0 <= k < old.len() ==> #[trigger] old[k] < i,
        forall|a: int, b: int| 0 <= a < b < old.len() ==> #[trigger] old[a] < #[trigger] old[b],
        new == (if pushed { old.push(i) } else { old }),
    ensures
        forall|k: int| 0 <= k < new.len() ==> #[trigger] new[k] < i + 1,
        forall|a: int, b: int| 0 <= a < b < new.len() ==> #[trigger] new[a] < #[trigger] new[b],
        forall|x: int| 0 <= x < i ==> (#[trigger] new.contains(x as usize) <==> old.contains(x as usize)),
        new.contains(i) <==> pushed,
{
    assert forall|x: int| 0 <= x < i implies (#[trigger] new.contains(x as usize) <==> old.contains(x as usize)) by {
        if new.contains(x as usize) {
            let q = choose|q: int| 0 <= q < new.len() && new[q] == x as usize;
            if pushed && q == old.len() {
                assert(new[q] == i);
            } else {
                assert(old[q] == x as usize);
            }
        }
        if old.contains(x as usize) {
            let q = choose|q: int| 0 <= q < old.len() && old[q] == x as usize;
            assert(new[q] == x as usize);
        }
    }
    if pushed {
        assert(new[old.len() as int] == i);
    } else {
        if new.contains(i) {
            let q = choose|q: int| 0 <= q < new.len() && new[q] == i;
            assert(old[q] < i);
        }
    }
}

/// Sorted indices below `n` that pass a test are free of duplicates.
proof fn lemma_increasing_distinct(s: Seq<usize>)
    requires
        forall|a: int, b: int| 0 <= a < b < s.len() ==> #[trigger] s[a] < #[trigger] s[b],
    ensures
        s.no_duplicates(),
{
    assert forall|a: int, b: int| 0 <= a < s.len() && 0 <= b < s.len() && a != b implies s[a] != s[b] by {
        if a < b {
            assert(s[a] < s[b]);
        } else {
            assert(s[b] < s[a]);
        }
    }
}

proof fn lemma_cover_len(s: Seq<usize>, n: int)
    requires
        n >= 0,
        n <= usize::MAX,
        forall|i: int| 0 <= i < n ==> #[trigger] s.contains(i as usize),
    ensures
        s.len() >= n,
{
    let si = s.map_values(|x: usize| x as int);
    si.lemma_cardinality_of_set();
    lemma_int_range(0, n);
    assert(set_int_range(0, n).subset_of(si.to_set())) by {
        assert forall|x: int| set_int_range(0, n).contains(x) implies si.to_set().contains(x) by {
            assert(s.contains(x as usize));
            let k = choose|k: int| 0 <= k < s.len() && s[k] == x as usize;
            assert(si[k] == x);
        }
    }
    vstd::seq_lib::seq_to_set_is_finite(si);
    lemma_len_subset(set_int_range(0, n), si.to_set());
}

proof fn lemma_processed_by_rank(
    tasks: Seq<Task>,
    deps: Seq<DepList>,
    done: Seq<bool>,
    rank: spec_fn(int) -> nat,
    i: int,
)
    requires
        0 <= i < tasks.len(),
        done.len() == tasks.len(),
        is_ranking(tasks, deps, rank),
        forall|x: int| 0 <= x < tasks.len() ==> done[x] || !all_deps_done(tasks, deps, done, x),
    ensures
        done[i],
    decreases rank(i),
{
    assert forall|j: int| 0 <= j < tasks.len() && #[trigger] depends(tasks, deps, i, j) implies done[j] by {
        assert(rank(j) < rank(i));
        lemma_processed_by_rank(tasks, deps, done, rank, j);
    }
    assert(all_deps_done(tasks, deps, done, i));
}

/// Appending the tasks released by the task at `old_head` keeps the
/// bookkeeping of the queue.
proof fn lemma_release_marks_step(
    tasks: Seq<Task>,
    deps: Seq<DepList>,
    old_queue: Seq<usize>,
    old_rel: Seq<int>,
    old_head: int,
    sorted: Seq<usize>,
    processed: Seq<bool>,
)
    requires
        tasks.len() <= usize::MAX,
        processed.len() == tasks.len(),
        0 <= old_head < old_queue.len(),
        release_marks(tasks, deps, old_queue, old_rel, old_head),
        forall|q: int| 0 <= q < old_queue.len() ==> (#[trigger] old_queue[q]) < tasks.len(),
        forall|q: int| 0 <= q < sorted.len() ==> (#[trigger] sorted[q]) < tasks.len(),
        sorted_by_order(tasks, sorted),
        forall|x: int|
            0 <= x < tasks.len() && #[trigger] sorted.contains(x as usize) ==> depends(
                tasks,
                deps,
                x,
                old_queue[old_head] as int,
            ) && all_deps_done(tasks, deps, processed, x),
        forall|x: int|
            0 <= x < tasks.len() ==> (processed[x] <==> #[trigger] old_queue.subrange(0, old_head + 1).contains(
                x as usize,
            )),
    ensures
        release_marks(
            tasks,
            deps,
            old_queue + sorted,
            old_rel + Seq::new(sorted.len(), |i: int| old_head),
            old_head + 1,
        ),
{
    let queue = old_queue + sorted;
    let rel = old_rel + Seq::new(sorted.len(), |i: int| old_head);
    let ol = old_queue.len() as int;
    assert forall|a: int| 0 <= a < queue.len() implies -1 <= #[trigger] rel[a] < old_head + 1 && rel[a] < a by {
        if a < ol {
            assert(rel[a] == old_rel[a]);
        } else {
            assert(rel[a] == old_head);
        }
    }
    assert forall|a: int| 0 <= a < queue.len() && 0 <= #[trigger] rel[a] implies depends(
        tasks,
        deps,
        queue[a] as int,
        queue[rel[a]] as int,
    ) by {
        if a < ol {
            assert(rel[a] == old_rel[a]);
            assert(queue[a] == old_queue[a]);
            assert(queue[rel[a]] == old_queue[old_rel[a]]);
        } else {
            let x = sorted[a - ol];
            assert(queue[a] == x);
            assert(sorted.contains(x));
            assert(sorted.contains((x as int) as usize));
            assert(rel[a] == old_head);
            assert(queue[old_head] == old_queue[old_head]);
        }
    }
    assert forall|a: int, j: int| 0 <= a < queue.len() && #[trigger] depends(tasks, deps, queue[a] as int, j) implies exists|c: int|
        0 <= c <= rel[a] && queue[c] == j as usize by {
        if a < ol {
            assert(queue[a] == old_queue[a]);
            assert(rel[a] == old_rel[a]);
            assert(depends(tasks, deps, old_queue[a] as int, j));
            let c = choose|c: int| 0 <= c <= old_rel[a] && old_queue[c] == j as usize;
            assert(queue[c] == j as usize);
        } else {
            let x = sorted[a - ol];
            assert(queue[a] == x);
            assert(sorted.contains(x));
            assert(sorted.contains((x as int) as usize));
            assert(all_deps_done(tasks, deps, processed, x as int));
            assert(processed[j]);
            assert(old_queue.subrange(0, old_head + 1).contains(j as usize));
            let c = choose|c: int| 0 <= c < old_head + 1 && #[trigger] old_queue.subrange(0, old_head + 1)[c] == j as usize;
            assert(queue[c] == j as usize);
            assert(rel[a] == old_head);
        }
    }
    assert forall|a: int, b: int| 0 <= a < b < queue.len() implies #[trigger] rel[a] < #[trigger] rel[b] || (rel[a] == rel[b]
        && order_before(tasks, queue[a] as int, queue[b] as int)) by {
        if b < ol {
            assert(rel[a] == old_rel[a] && rel[b] == old_rel[b]);
            assert(queue[a] == old_queue[a] && queue[b] == old_queue[b]);
        } else if a < ol {
            assert(rel[a] == old_rel[a]);
            assert(rel[b] == old_head);
        } else {
            assert(queue[a] == sorted[a - ol] && queue[b] == sorted[b - ol]);
            assert(order_before(tasks, sorted[a - ol] as int, sorted[b - ol] as int));
        }
    }
}

/// The bookkeeping of the queue gives the release order of the final list.
proof fn lemma_released_in_order(
    tasks: Seq<Task>,
    deps: Seq<DepList>,
    queue: Seq<usize>,
    rest_sorted: Seq<usize>,
    rel: Seq<int>,
    head: int,
    p: Seq<int>,
)
    requires
        tasks.len() <= usize::MAX,
        p == (queue + rest_sorted).map_values(|x: usize| x as int),
        (queue + rest_sorted).no_duplicates(),
        release_marks(tasks, deps, queue, rel, head),
    ensures
        released_in_order(tasks, deps, p, queue.len() as int),
{
    let m = queue.len() as int;
    let all = queue + rest_sorted;
    assert forall|a: int| 0 <= a < m implies #[trigger] last_prereq_at(tasks, deps, p, a, rel[a]) by {
        assert(p[a] == all[a] as int && all[a] == queue[a]);
        if 0 <= rel[a] {
            assert(p[rel[a]] == all[rel[a]] as int && all[rel[a]] == queue[rel[a]]);
        }
        assert forall|b: int| 0 <= b < p.len() && #[trigger] depends(tasks, deps, p[a], p[b]) implies b <= rel[a] by {
            let j = p[b];
            assert(p[b] == all[b] as int);
            assert(depends(tasks, deps, queue[a] as int, j));
            let c = choose|c: int| 0 <= c <= rel[a] && queue[c] == j as usize;
            assert(all[c] == queue[c]);
            assert(all[c] == all[b]);
        }
    }
    assert forall|a: int, h: int| 0 <= a < m && #[trigger] last_prereq_at(tasks, deps, p, a, h) implies h == rel[a] by {
        assert(last_prereq_at(tasks, deps, p, a, rel[a]));
        if 0 <= h {
            assert(depends(tasks, deps, p[a], p[h]));
        }
        if 0 <= rel[a] {
            assert(depends(tasks, deps, p[a], p[rel[a]]));
        }
    }
    assert forall|a: int, b: int, h1: int, h2: int|
        0 <= a < b < m && #[trigger] last_prereq_at(tasks, deps, p, a, h1) && #[trigger] last_prereq_at(
            tasks,
            deps,
            p,
            b,
            h2,
        ) implies h1 < h2 || (h1 == h2 && order_before(tasks, p[a], p[b])) by {
        assert(h1 == rel[a] && h2 == rel[b]);
        assert(p[a] == all[a] as int && all[a] == queue[a]);
        assert(p[b] == all[b] as int && all[b] == queue[b]);
    }
}

proof fn lemma_head_after_prereqs(
    tasks: Seq<Task>,
    deps: Seq<DepList>,
    queue: Seq<usize>,
    rest_sorted: Seq<usize>,
    p: Seq<int>,
)
    requires
        tasks.len() <= usize::MAX,
        p == (queue + rest_sorted).map_values(|x: usize| x as int),
        forall|q: int| 0 <= q < queue.len() ==> (#[trigger] queue[q]) < tasks.len(),
        forall|q: int, j: int|
            0 <= q < queue.len() && 0 <= j < tasks.len() && #[trigger] depends(tasks, deps, queue[q] as int, j)
                ==> exists|q2: int| 0 <= q2 < q && queue[q2] == j as usize,
    ensures
        head_after_prereqs(tasks, deps, p, queue.len() as int),
{
    let m = queue.len() as int;
    let all = queue + rest_sorted;
    assert forall|a: int, j: int| 0 <= a < m && #[trigger] depends(tasks, deps, p[a], j) implies exists|b: int|
        0 <= b < a && p[b] == j by {
        assert(p[a] == all[a] as int && all[a] == queue[a]);
        assert(0 <= j < tasks.len());
        assert(depends(tasks, deps, queue[a] as int, j));
        let q2 = choose|q2: int| 0 <= q2 < a && queue[q2] == j as usize;
        assert(p[q2] == all[q2] as int && all[q2] == queue[q2]);
    }
}

/// A task held back at the end depends on another task held back.
proof fn lemma_tail_one(
    tasks: Seq<Task>,
    deps: Seq<DepList>,
    queue: Seq<usize>,
    rest_sorted: Seq<usize>,
    processed: Seq<bool>,
    p: Seq<int>,
    a: int,
)
    requires
        tasks.len() <= usize::MAX,
        processed.len() == tasks.len(),
        p == (queue + rest_sorted).map_values(|x: usize| x as int),
        queue.len() <= a < p.len(),
        forall|q: int| 0 <= q < rest_sorted.len() ==> (#[trigger] rest_sorted[q]) < tasks.len(),
        forall|x: int|
            0 <= x < tasks.len() && !processed[x] ==> !#[trigger] all_deps_done(tasks, deps, processed, x),
        forall|x: int| 0 <= x < tasks.len() ==> (#[trigger] rest_sorted.contains(x as usize) <==> !processed[x]),
    ensures
        depends_on_tail(tasks, deps, p, queue.len() as int, a),
{
    let m = queue.len() as int;
    let all = queue + rest_sorted;
    let x = rest_sorted[a - m];
    assert(p[a] == all[a] as int && all[a] == x);
    let xi = x as int;
    assert(rest_sorted.contains(xi as usize));
    assert(!all_deps_done(tasks, deps, processed, xi));
    let j = choose|j: int| 0 <= j < tasks.len() && #[trigger] depends(tasks, deps, xi, j) && !processed[j];
    assert(rest_sorted.contains(j as usize));
    let w = choose|w: int| 0 <= w < rest_sorted.len() && rest_sorted[w] == j as usize;
    assert(all[m + w] == rest_sorted[w]);
    assert(p[m + w] == j);
    assert(depends(tasks, deps, p[a], p[m + w]));
}

proof fn lemma_tail_held_by_cycle(
    tasks: Seq<Task>,
    deps: Seq<DepList>,
    queue: Seq<usize>,
    rest_sorted: Seq<usize>,
    processed: Seq<bool>,
    p: Seq<int>,
)
    requires
        tasks.len() <= usize::MAX,
        processed.len() == tasks.len(),
        p == (queue + rest_sorted).map_values(|x: usize| x as int),
        forall|q: int| 0 <= q < rest_sorted.len() ==> (#[trigger] rest_sorted[q]) < tasks.len(),
        forall|x: int|
            0 <= x < tasks.len() && !processed[x] ==> !#[trigger] all_deps_done(tasks, deps, processed, x),
        forall|x: int| 0 <= x < tasks.len() ==> (#[trigger] rest_sorted.contains(x as usize) <==> !processed[x]),
    ensures
        tail_held_by_cycle(tasks, deps, p, queue.len() as int),
{
    let m = queue.len() as int;
    assert forall|a: int| m <= a < p.len() implies #[trigger] depends_on_tail(tasks, deps, p, m, a) by {
        lemma_tail_one(tasks, deps, queue, rest_sorted, processed, p, a);
    }
}

proof fn lemma_tail_in_order(tasks: Seq<Task>, queue: Seq<usize>, rest_sorted: Seq<usize>, p: Seq<int>)
    requires
        p == (queue + rest_sorted).map_values(|x: usize| x as int),
        sorted_by_order(tasks, rest_sorted),
    ensures
        tail_in_order(tasks, p, queue.len() as int),
{
    let m = queue.len() as int;
    let all = queue + rest_sorted;
    assert forall|a: int, b: int| m <= a < b < p.len() implies order_before(tasks, #[trigger] p[a], #[trigger] p[b]) by {
        assert(p[a] == all[a] as int && all[a] == rest_sorted[a - m]);
        assert(p[b] == all[b] as int && all[b] == rest_sorted[b - m]);
    }
}

/// Orders tasks so that every task comes after the tasks it depends on
/// (Kahn's algorithm); dependencies on tasks outside the list are ignored.
///
/// Tasks without pending prerequisites are released in `sort_order` order
/// (ties in input order); each time a task is placed, the tasks it released
/// are queued in that order. Tasks caught in a dependency cycle are put at the
/// end in `sort_order` order.
pub fn topo_sort_by_dependency(tasks: &Vec<Task>, deps: &Vec<DepList>) -> (r: Vec<Task>)
    requires
        ids_distinct(tasks@),
        keys_distinct(deps@),
    ensures
        topo_result(tasks@, deps@, r@),
{
    let n = tasks.len();
    let table = dep_table(tasks, deps);
    // tasks with no prerequisite in the list
    let mut zero: Vec<usize> = Vec::new();
    let mut i: usize = 0;
    while i < n
        invariant
            n == tasks@.len(),
            table@.len() == n,
            i <= n,
            forall|k: int| 0 <= k < zero@.len() ==> (#[trigger] zero@[k]) < i,
            forall|a: int, b: int| 0 <= a < b < zero@.len() ==> #[trigger] zero@[a] < #[trigger] zero@[b],
            forall|x: int| 0 <= x < i ==> (#[trigger] zero@.contains(x as usize) <==> table@[x]@.len() == 0),
        decreases n - i,
    {
        let ghost old_zero = zero@;
        let pushed = table[i].len() == 0;
        if pushed {
            zero.push(i);
        }
        proof {
            lemma_filter_step(old_zero, zero@, i, pushed);
            assert forall|x: int| 0 <= x < i + 1 implies (#[trigger] zero@.contains(x as usize) <==> table@[x]@.len()
                == 0) by {
                if x < i {
                    assert(old_zero.contains(x as usize) <==> table@[x]@.len() == 0);
                }
            }
        }
        i = i + 1;
    }
    proof {
        lemma_increasing_distinct(zero@);
    }
    let queue0 = sort_by_order(tasks, zero);
    proof {
        assert forall|q: int| 0 <= q < queue0@.len() implies (#[trigger] queue0@[q]) < n by {
            assert(queue0@.contains(queue0@[q]));
            assert(zero@.contains(queue0@[q]));
            let zq = choose|k: int| 0 <= k < zero@.len() && zero@[k] == queue0@[q];
            assert(zero@[zq] < n);
        }
    }
    let mut queue: Vec<usize> = queue0;
    let ghost mut rel: Seq<int> = Seq::new(queue0@.len(), |i: int| -1int);
    let mut processed: Vec<bool> = Vec::new();
    let mut i: usize = 0;
    while i < n
        invariant
            i <= n,
            processed@.len() == i,
            forall|x: int| 0 <= x < i ==> !processed@[x],
        decreases n - i,
    {
        processed.push(false);
        i = i + 1;
    }
    let mut out: Vec<usize> = Vec::new();
    let mut res: Vec<Task> = Vec::new();
    let mut head: usize = 0;
    proof {
        assert forall|x: int| 0 <= x < n && !processed@[x] && all_deps_done(tasks@, deps@, processed@, x) implies
            queue@.subrange(head as int, queue@.len() as int).contains(x as usize) by {
            assert(table@[x]@.len() == 0) by {
                if table@[x]@.len() > 0 {
                    let j = table@[x]@[0];
                    assert(table@[x]@.contains(j));
                    assert(depends(tasks@, deps@, x, j as int));
                }
            }
            assert(zero@.contains(x as usize));
            assert(queue@.contains(x as usize));
            assert(queue@.subrange(0, queue@.len() as int) == queue@);
        }
        assert forall|q: int| head <= q < queue@.len() implies !processed@[queue@[q] as int] && all_deps_done(
            tasks@,
            deps@,
            processed@,
            queue@[q] as int,
        ) by {
            assert(queue@.contains(queue@[q]));
            assert(zero@.contains(queue@[q]));
            let zq = choose|k: int| 0 <= k < zero@.len() && zero@[k] == queue@[q];
            assert(zero@[zq] < n);
            let x = queue@[q] as int;
            assert(zero@.contains(x as usize));
            assert(table@[queue@[q] as int]@.len() == 0);
        }
        assert forall|q: int, j: int|
            0 <= q < queue@.len() && 0 <= j < n && #[trigger] depends(tasks@, deps@, queue@[q] as int, j) implies
            exists|q2: int| 0 <= q2 < q && queue@[q2] == j as usize by {
            assert(queue@.contains(queue@[q]));
            assert(zero@.contains(queue@[q]));
            let zq = choose|k: int| 0 <= k < zero@.len() && zero@[k] == queue@[q];
            assert(zero@[zq] < n);
            assert(table@[queue@[q] as int]@.contains(j as usize));
        }
        assert forall|q: int, j: int|
            0 <= q < queue@.len() && #[trigger] depends(tasks@, deps@, queue@[q] as int, j) implies exists|c: int|
            0 <= c <= rel[q] && queue@[c] == j as usize by {
            assert(queue@.contains(queue@[q]));
            assert(zero@.contains(queue@[q]));
            let zq = choose|k: int| 0 <= k < zero@.len() && zero@[k] == queue@[q];
            assert(zero@[zq] < n);
            assert(table@[queue@[q] as int]@.contains(j as usize));
        }
        assert forall|a: int, b: int| 0 <= a < b < queue@.len() implies #[trigger] rel[a] < #[trigger] rel[b] || (rel[a]
            == rel[b] && order_before(tasks@, queue@[a] as int, queue@[b] as int)) by {
            assert(rel[a] == -1 && rel[b] == -1);
        }
        assert(release_marks(tasks@, deps@, queue@, rel, head as int));
    }
    while head < queue.len()
        invariant
            n == tasks@.len(),
            table@.len() == n,
            forall|a: int, k: int| 0 <= a < n && 0 <= k < table@[a]@.len() ==> (#[trigger] table@[a]@[k]) < n,
            forall|a: int, j: int|
                0 <= a < n && 0 <= j < n ==> (#[trigger] depends(tasks@, deps@, a, j) <==> table@[a]@.contains(
                    j as usize,
                )),
            processed@.len() == n,
            forall|q: int| 0 <= q < queue@.len() ==> (#[trigger] queue@[q]) < n,
            queue@.no_duplicates(),
            head <= queue@.len(),
            out@ == queue@.subrange(0, head as int),
            res@.len() == head,
            forall|k: int| 0 <= k < head ==> #[trigger] res@[k] == tasks@[out@[k] as int],
            forall|x: int| 0 <= x < n ==> (processed@[x] <==> out@.contains(x as usize)),
            forall|q: int|
                head <= q < queue@.len() ==> !processed@[#[trigger] queue@[q] as int] && all_deps_done(
                    tasks@,
                    deps@,
                    processed@,
                    queue@[q] as int,
                ),
            forall|x: int|
                0 <= x < n && !processed@[x] && all_deps_done(tasks@, deps@, processed@, x) ==> queue@.subrange(
                    head as int,
                    queue@.len() as int,
                ).contains(x as usize),
            forall|q: int, j: int|
                0 <= q < queue@.len() && 0 <= j < n && #[trigger] depends(tasks@, deps@, queue@[q] as int, j)
                    ==> exists|q2: int| 0 <= q2 < q && queue@[q2] == j as usize,
            no_deps(tasks@, deps@) ==> queue@ == queue0@,
            queue0@.len() <= queue@.len(),
            queue@.subrange(0, queue0@.len() as int) == queue0@,
            release_marks(tasks@, deps@, queue@, rel, head as int),
        decreases 2 * n - queue@.len() - head,
    {
        proof {
            lemma_distinct_below(queue@, n as int);
        }
        let t = queue[head];
        let ghost old_processed = processed@;
        let ghost old_queue = queue@;
        let ghost old_head = head;
        let ghost old_rel = rel;
        processed.set(t, true);
        out.push(t);
        res.push(tasks[t].copy());
        head = head + 1;
        // tasks released by `t`
        let mut ready: Vec<usize> = Vec::new();
        let mut i: usize = 0;
        while i < n
            invariant
                n == tasks@.len(),
                table@.len() == n,
                processed@.len() == n,
                forall|a: int, k: int| 0 <= a < n && 0 <= k < table@[a]@.len() ==> (#[trigger] table@[a]@[k]) < n,
                i <= n,
                forall|k: int| 0 <= k < ready@.len() ==> (#[trigger] ready@[k]) < i,
                forall|a: int, b: int| 0 <= a < b < ready@.len() ==> #[trigger] ready@[a] < #[trigger] ready@[b],
                forall|x: int|
                    0 <= x < i ==> (#[trigger] ready@.contains(x as usize) <==> released(table@, processed@, t, x)),
            decreases n - i,
        {
            let ghost old_ready = ready@;
            let pushed = contains_idx(&table[i], t) && !processed[i] && all_marked(&table[i], &processed);
            if pushed {
                ready.push(i);
            }
            proof {
                lemma_filter_step(old_ready, ready@, i, pushed);
                assert forall|x: int| 0 <= x < i + 1 implies (#[trigger] ready@.contains(x as usize) <==> released(
                    table@,
                    processed@,
                    t,
                    x,
                )) by {
                    if x < i {
                        assert(old_ready.contains(x as usize) <==> released(table@, processed@, t, x));
                    }
                }
            }
            i = i + 1;
        }
        proof {
            lemma_increasing_distinct(ready@);
        }
        let sorted = sort_by_order(tasks, ready);
        let ghost mid_queue = queue@;
        let mut k: usize = 0;
        while k < sorted.len()
            invariant
                k <= sorted@.len(),
                queue@ == mid_queue + sorted@.subrange(0, k as int),
            decreases sorted@.len() - k,
        {
            queue.push(sorted[k]);
            k = k + 1;
        }
        proof {
            assert(sorted@.subrange(0, sorted@.len() as int) == sorted@);
            assert(queue@ == old_queue + sorted@);
            assert(queue@.subrange(0, queue0@.len() as int) =~= old_queue.subrange(0, queue0@.len() as int));
            assert(processed@ == old_processed.update(t as int, true));
            // `x` is released by `t` exactly when it is in `sorted`
            assert forall|x: int| 0 <= x < n implies (sorted@.contains(x as usize) <==> (depends(tasks@, deps@, x, t as int)
                && !processed@[x] && all_deps_done(tasks@, deps@, processed@, x))) by {
                if sorted@.contains(x as usize) {
                    assert(ready@.contains(x as usize));
                    assert forall|j: int| 0 <= j < n && #[trigger] depends(tasks@, deps@, x, j) implies processed@[j] by {
                        assert(table@[x]@.contains(j as usize));
                        let kk = choose|kk: int| 0 <= kk < table@[x]@.len() && table@[x]@[kk] == j as usize;
                        assert(processed@[table@[x]@[kk] as int]);
                    }
                }
                if depends(tasks@, deps@, x, t as int) && !processed@[x] && all_deps_done(tasks@, deps@, processed@, x) {
                    assert forall|kk: int| 0 <= kk < table@[x]@.len() implies processed@[#[trigger] table@[x]@[kk] as int] by {
                        let j = table@[x]@[kk];
                        assert(table@[x]@.contains(j));
                        assert(depends(tasks@, deps@, x, j as int));
                    }
                    assert(ready@.contains(x as usize));
                }
            }
            // the old pending elements do not depend on `t`
            assert forall|q: int| old_head < q < old_queue.len() implies !depends(tasks@, deps@, old_queue[q] as int, t as int) by {
                assert(all_deps_done(tasks@, deps@, old_processed, old_queue[q] as int));
                assert(old_queue[old_head as int] == t);
                assert(!old_processed[t as int]);
            }
            // no duplicates in the new queue
            assert(queue@.no_duplicates()) by {
                assert forall|a: int, b: int| 0 <= a < queue@.len() && 0 <= b < queue@.len() && a != b implies queue@[a]
                    != queue@[b] by {
                    if a < old_queue.len() && b >= old_queue.len() {
                        let x = queue@[b];
                        assert(sorted@.contains(x));
                        assert(x == sorted@[b - old_queue.len()]);
                        let xi = x as int;
                        assert(sorted@.contains(xi as usize));
                        assert(depends(tasks@, deps@, x as int, t as int));
                        assert(!processed@[x as int]);
                        if a < head {
                            assert(out@[a] == queue@[a]);
                            assert(out@.contains(queue@[a]));
                        } else {
                            if queue@[a] == x {
                                assert(!depends(tasks@, deps@, old_queue[a] as int, t as int));
                            }
                        }
                    } else if b < old_queue.len() && a >= old_queue.len() {
                        let x = queue@[a];
                        assert(sorted@.contains(x));
                        assert(x == sorted@[a - old_queue.len()]);
                        let xi = x as int;
                        assert(sorted@.contains(xi as usize));
                        assert(depends(tasks@, deps@, x as int, t as int));
                        assert(!processed@[x as int]);
                        if b < head {
                            assert(out@[b] == queue@[b]);
                            assert(out@.contains(queue@[b]));
                        } else {
                            if queue@[b] == x {
                                assert(!depends(tasks@, deps@, old_queue[b] as int, t as int));
                            }
                        }
                    } else if a >= old_queue.len() && b >= old_queue.len() {
                        assert(sorted@[a - old_queue.len()] != sorted@[b - old_queue.len()]);
                    }
                }
            }
            assert forall|q: int| 0 <= q < queue@.len() implies (#[trigger] queue@[q]) < n by {
                if q >= old_queue.len() {
                    assert(sorted@.contains(queue@[q]));
                    assert(ready@.contains(queue@[q]));
                    let w = choose|w: int| 0 <= w < ready@.len() && ready@[w] == queue@[q];
                }
            }
            assert(out@ == queue@.subrange(0, head as int));
            assert forall|x: int| 0 <= x < n implies (processed@[x] <==> out@.contains(x as usize)) by {
                if x == t as int {
                    assert(out@[out@.len() - 1] == t);
                } else {
                    if out@.contains(x as usize) {
                        let w = choose|w: int| 0 <= w < out@.len() && out@[w] == x as usize;
                        assert(w < out@.len() - 1);
                        assert(old_queue.subrange(0, old_head as int)[w] == x as usize);
                    }
                    if old_processed[x] {
                        assert(old_queue.subrange(0, old_head as int).contains(x as usize));
                        let w = choose|w: int| 0 <= w < old_head && old_queue.subrange(0, old_head as int)[w] == x as usize;
                        assert(out@[w] == x as usize);
                    }
                }
            }
            assert forall|q: int| head <= q < queue@.len() implies !processed@[#[trigger] queue@[q] as int] && all_deps_done(
                tasks@,
                deps@,
                processed@,
                queue@[q] as int,
            ) by {
                if q < old_queue.len() {
                    let x = queue@[q] as int;
                    assert(old_queue[q] == queue@[q]);
                    assert(x != t as int);
                    assert(all_deps_done(tasks@, deps@, old_processed, x));
                } else {
                    assert(sorted@.contains(queue@[q]));
                }
            }
            assert forall|x: int|
                0 <= x < n && !processed@[x] && all_deps_done(tasks@, deps@, processed@, x) implies queue@.subrange(
                    head as int,
                    queue@.len() as int,
                ).contains(x as usize) by {
                if depends(tasks@, deps@, x, t as int) {
                    assert(sorted@.contains(x as usize));
                    let w = choose|w: int| 0 <= w < sorted@.len() && sorted@[w] == x as usize;
                    assert(queue@[old_queue.len() + w] == x as usize);
                    assert(queue@.subrange(head as int, queue@.len() as int)[old_queue.len() + w - head] == x as usize);
                } else {
                    assert(x != t as int);
                    assert(all_deps_done(tasks@, deps@, old_processed, x)) by {
                        assert forall|j: int| 0 <= j < n && #[trigger] depends(tasks@, deps@, x, j) implies old_processed[j] by {
                            assert(processed@[j]);
                            assert(j != t as int);
                        }
                    }
                    assert(old_queue.subrange(old_head as int, old_queue.len() as int).contains(x as usize));
                    let w = choose|w: int| 0 <= w < old_queue.len() - old_head && old_queue.subrange(old_head as int, old_queue.len() as int)[w] == x as usize;
                    assert(w != 0);
                    assert(queue@.subrange(head as int, queue@.len() as int)[w - 1] == x as usize);
                }
            }
            assert forall|q: int, j: int|
                0 <= q < queue@.len() && 0 <= j < n && #[trigger] depends(tasks@, deps@, queue@[q] as int, j) implies
                exists|q2: int| 0 <= q2 < q && queue@[q2] == j as usize by {
                if q < old_queue.len() {
                    assert(old_queue[q] == queue@[q]);
                    let q2 = choose|q2: int| 0 <= q2 < q && old_queue[q2] == j as usize;
                    assert(queue@[q2] == j as usize);
                } else {
                    assert(sorted@.contains(queue@[q]));
                    assert(all_deps_done(tasks@, deps@, processed@, queue@[q] as int));
                    assert(processed@[j]);
                    assert(out@.contains(j as usize));
                    let w = choose|w: int| 0 <= w < out@.len() && out@[w] == j as usize;
                    assert(queue@[w] == j as usize);
                }
            }
            if no_deps(tasks@, deps@) {
                assert(ready@.len() == 0) by {
                    if ready@.len() > 0 {
                        let x = ready@[0];
                        let xi = x as int;
                        assert(ready@.contains(xi as usize));
                        assert(released(table@, processed@, t, xi));
                        assert(table@[x as int]@.contains(t));
                        assert(depends(tasks@, deps@, x as int, t as int));
                    }
                }
                assert(queue@ == old_queue);
            }
            lemma_distinct_below(queue@, n as int);
            assert(out@ =~= old_queue.subrange(0, old_head + 1));
            assert forall|q: int| 0 <= q < sorted@.len() implies (#[trigger] sorted@[q]) < n by {
                assert(queue@[old_queue.len() + q] == sorted@[q]);
            }
            lemma_release_marks_step(tasks@, deps@, old_queue, old_rel, old_head as int, sorted@, processed@);
            rel = old_rel + Seq::new(sorted@.len(), |i: int| old_head as int);
        }
    }
    let ghost phase_out = out@;
    // tasks caught in a cycle, in `sort_order` order
    let mut rest: Vec<usize> = Vec::new();
    let mut i: usize = 0;
    while i < n
        invariant
            n == tasks@.len(),
            processed@.len() == n,
            i <= n,
            forall|k: int| 0 <= k < rest@.len() ==> (#[trigger] rest@[k]) < i,
            forall|a: int, b: int| 0 <= a < b < rest@.len() ==> #[trigger] rest@[a] < #[trigger] rest@[b],
            forall|x: int| 0 <= x < i ==> (#[trigger] rest@.contains(x as usize) <==> !processed@[x]),
        decreases n - i,
    {
        let ghost old_rest = rest@;
        let pushed = !processed[i];
        if pushed {
            rest.push(i);
        }
        proof {
            lemma_filter_step(old_rest, rest@, i, pushed);
            assert forall|x: int| 0 <= x < i + 1 implies (#[trigger] rest@.contains(x as usize) <==> !processed@[x]) by {
                if x < i {
                    assert(old_rest.contains(x as usize) <==> !processed@[x]);
                }
            }
        }
        i = i + 1;
    }
    proof {
        lemma_increasing_distinct(rest@);
    }
    let rest_sorted = sort_by_order(tasks, rest);
    proof {
        assert forall|q: int| 0 <= q < rest_sorted@.len() implies (#[trigger] rest_sorted@[q]) < n by {
            assert(rest_sorted@.contains(rest_sorted@[q]));
            assert(rest@.contains(rest_sorted@[q]));
            let w = choose|w: int| 0 <= w < rest@.len() && rest@[w] == rest_sorted@[q];
            assert(rest@[w] < n);
        }
    }
    let mut k: usize = 0;
    while k < rest_sorted.len()
        invariant
            n == tasks@.len(),
            k <= rest_sorted@.len(),
            forall|q: int| 0 <= q < rest_sorted@.len() ==> (#[trigger] rest_sorted@[q]) < n,
            out@ == phase_out + rest_sorted@.subrange(0, k as int),
            res@.len() == out@.len(),
            forall|q: int| 0 <= q < res@.len() ==> #[trigger] res@[q] == tasks@[out@[q] as int],
        decreases rest_sorted@.len() - k,
    {
        let x = rest_sorted[k];
        out.push(x);
        res.push(tasks[x].copy());
        k = k + 1;
    }
    proof {
        assert(rest_sorted@.subrange(0, rest_sorted@.len() as int) == rest_sorted@);
        let p = out@.map_values(|x: usize| x as int);
        // every index appears in `out`
        assert forall|x: int| 0 <= x < n implies #[trigger] out@.contains(x as usize) by {
            if processed@[x] {
                assert(phase_out.contains(x as usize));
                let w = choose|w: int| 0 <= w < phase_out.len() && phase_out[w] == x as usize;
                assert(out@[w] == x as usize);
            } else {
                assert(rest@.contains(x as usize));
                assert(rest_sorted@.contains(x as usize));
                let w = choose|w: int| 0 <= w < rest_sorted@.len() && rest_sorted@[w] == x as usize;
                assert(out@[phase_out.len() + w] == x as usize);
            }
        }
        // no index appears twice
        assert(out@.no_duplicates()) by {
            assert forall|a: int, b: int| 0 <= a < out@.len() && 0 <= b < out@.len() && a != b implies out@[a] != out@[b] by {
                if a < phase_out.len() && b < phase_out.len() {
                    assert(queue@[a] == out@[a] && queue@[b] == out@[b]);
                } else if a >= phase_out.len() && b >= phase_out.len() {
                    assert(rest_sorted@[a - phase_out.len()] != rest_sorted@[b - phase_out.len()]);
                } else if a < phase_out.len() {
                    let x = out@[b];
                    assert(rest_sorted@.contains(x));
                    assert(rest@.contains(x));
                    assert(!processed@[x as int]);
                    assert(phase_out.contains(out@[a]));
                } else {
                    let x = out@[a];
                    assert(rest_sorted@.contains(x));
                    assert(rest@.contains(x));
                    assert(!processed@[x as int]);
                    assert(phase_out.contains(out@[b]));
                }
            }
        }
        assert forall|q: int| 0 <= q < out@.len() implies (#[trigger] out@[q]) < n by {
            if q < phase_out.len() {
                assert(queue@[q] == out@[q]);
            } else {
                assert(rest_sorted@[q - phase_out.len()] == out@[q]);
            }
        }
        lemma_distinct_below(out@, n as int);
        lemma_cover_len(out@, n as int);
        assert(is_perm(p, n as int));
        assert forall|rank: spec_fn(int) -> nat|
            #[trigger] is_ranking(tasks@, deps@, rank) implies forall|a: int, b: int|
                0 <= a < n && 0 <= b < n && #[trigger] depends(tasks@, deps@, p[b], p[a]) ==> a < b by {
            assert forall|x: int| 0 <= x < n implies processed@[x] || !all_deps_done(tasks@, deps@, processed@, x) by {
                if !processed@[x] && all_deps_done(tasks@, deps@, processed@, x) {
                    assert(queue@.subrange(head as int, queue@.len() as int).contains(x as usize));
                }
            }
            assert forall|x: int| 0 <= x < n implies processed@[x] by {
                lemma_processed_by_rank(tasks@, deps@, processed@, rank, x);
            }
            assert(rest@.len() == 0) by {
                if rest@.len() > 0 {
                    let x0 = rest@[0] as int;
                    assert(rest@.contains(x0 as usize));
                    assert(processed@[x0]);
                }
            }
            assert forall|a: int, b: int| 0 <= a < n && 0 <= b < n && #[trigger] depends(tasks@, deps@, p[b], p[a]) implies a < b by {
                assert(out@ == queue@);
                let q2 = choose|q2: int| 0 <= q2 < b && queue@[q2] == p[a] as usize;
                assert(out@[q2] == out@[a]);
            }
        }
        if no_deps(tasks@, deps@) {
            let zrank = |x: int| 0nat;
            assert(is_ranking(tasks@, deps@, zrank));
            assert forall|x: int| 0 <= x < n implies processed@[x] || !all_deps_done(tasks@, deps@, processed@, x) by {
                if !processed@[x] && all_deps_done(tasks@, deps@, processed@, x) {
                    assert(queue@.subrange(head as int, queue@.len() as int).contains(x as usize));
                }
            }
            assert forall|x: int| 0 <= x < n implies processed@[x] by {
                lemma_processed_by_rank(tasks@, deps@, processed@, zrank, x);
            }
            assert(rest@.len() == 0) by {
                if rest@.len() > 0 {
                    let x0 = rest@[0] as int;
                    assert(rest@.contains(x0 as usize));
                    assert(processed@[x0]);
                }
            }
            assert(out@ == queue0@);
            assert forall|a: int, b: int| 0 <= a < b < n implies order_before(tasks@, #[trigger] p[a], #[trigger] p[b]) by {
                assert(order_before(tasks@, queue0@[a] as int, queue0@[b] as int));
            }
        }
        // the tasks that depend on no other come first, in the tie-break order
        let m = queue0@.len() as int;
        assert(out@.subrange(0, phase_out.len() as int) == phase_out) by {
            assert(out@.subrange(0, phase_out.len() as int) =~= phase_out);
        }
        assert(phase_out == queue@) by {
            assert(queue@.subrange(0, queue@.len() as int) =~= queue@);
        }
        assert forall|x: int| 0 <= x < n implies (queue0@.contains(x as usize) <==> #[trigger] prereq_free(
            tasks@,
            deps@,
            x,
        )) by {
            assert(queue0@.contains(x as usize) <==> zero@.contains(x as usize));
            assert(zero@.contains(x as usize) <==> table@[x]@.len() == 0);
            if table@[x]@.len() == 0 {
                assert forall|j: int| !#[trigger] depends(tasks@, deps@, x, j) by {
                    if depends(tasks@, deps@, x, j) {
                        assert(table@[x]@.contains(j as usize));
                    }
                }
            } else {
                let j = table@[x]@[0] as int;
                assert(table@[x]@.contains(j as usize));
                assert(depends(tasks@, deps@, x, j));
            }
        }
        assert forall|a: int| 0 <= a < p.len() implies (a < m <==> #[trigger] prereq_free(tasks@, deps@, p[a])) by {
            assert(0 <= p[a] < n);
            if a < m {
                assert(out@[a] == queue@[a]);
                assert(queue@[a] == queue0@[a]);
                assert(queue0@.contains(queue0@[a]));
            } else {
                if queue0@.contains(out@[a]) {
                    let w = choose|w: int| 0 <= w < queue0@.len() && queue0@[w] == out@[a];
                    assert(queue@[w] == queue0@[w]);
                    if a < phase_out.len() {
                        assert(out@[a] == queue@[a]);
                        assert(queue@[w] == queue@[a]);
                    } else {
                        let x = out@[a];
                        assert(rest_sorted@.contains(x));
                        assert(rest@.contains(x));
                        assert(!processed@[x as int]);
                        assert(out@[w] == x);
                        assert(phase_out.contains(x));
                    }
                }
            }
        }
        assert forall|a: int, b: int| 0 <= a < b < m implies order_before(tasks@, #[trigger] p[a], #[trigger] p[b]) by {
            assert(out@[a] == queue@[a] && queue@[a] == queue0@[a]);
            assert(out@[b] == queue@[b] && queue@[b] == queue0@[b]);
            assert(order_before(tasks@, queue0@[a] as int, queue0@[b] as int));
        }
        assert(free_first(tasks@, deps@, p, m));
        // the tasks placed by the dependency order come first; those held
        // back by a cycle come last, in the tie-break order
        assert(out@ =~= queue@ + rest_sorted@);
        assert forall|x: int| 0 <= x < n implies (rest_sorted@.contains(x as usize) <==> !processed@[x]) by {
            assert(rest_sorted@.contains(x as usize) <==> rest@.contains(x as usize));
        }
        assert forall|x: int| 0 <= x < n && !processed@[x] implies !#[trigger] all_deps_done(tasks@, deps@, processed@, x) by {
            if all_deps_done(tasks@, deps@, processed@, x) {
                assert(queue@.subrange(head as int, queue@.len() as int).contains(x as usize));
            }
        }
        lemma_head_after_prereqs(tasks@, deps@, queue@, rest_sorted@, p);
        lemma_tail_held_by_cycle(tasks@, deps@, queue@, rest_sorted@, processed@, p);
        lemma_tail_in_order(tasks@, queue@, rest_sorted@, p);
        lemma_released_in_order(tasks@, deps@, queue@, rest_sorted@, rel, head as int, p);
        assert(settled_first(tasks@, deps@, p, queue@.len() as int));
        assert(topo_perm_ok(tasks@, deps@, res@, p));
    }
    res
}

} // verus!

verus! {

/// The dependency records hold "`a` depends on `b`".
pub open spec fn dep_edge(deps: Seq<TaskDependency>, a: Seq<char>, b: Seq<char>) -> bool {
    exists|k: int| 0 <= k < deps.len() && #[trigger] deps[k].task_id@ == a && deps[k].depends_on_id@ == b
}

/// `p` is a chain of "depends on" steps.
pub open spec fn dep_path(deps: Seq<TaskDependency>, p: Seq<Seq<char>>) -> bool {
    &&& p.len() >= 1
    &&& forall|i: int| 0 <= i < p.len() - 1 ==> #[trigger] dep_edge(deps, p[i], p[i + 1])
}

/// Task `a` depends, directly or through other tasks, on task `b` (or is `b`).
pub open spec fn reaches(deps: Seq<TaskDependency>, a: Seq<char>, b: Seq<char>) -> bool {
    exists|p: Seq<Seq<char>>| #[trigger] dep_path(deps, p) && p[0] == a && p.last() == b
}

/// The task id that mark `j` stands for: the start for `0`, the
/// prerequisite of record `j - 1` otherwise.
pub open spec fn node(deps: Seq<TaskDependency>, start: Seq<char>, j: int) -> Seq<char> {
    if j == 0 {
        start
    } else {
        deps[j - 1].depends_on_id@
    }
}

/// The id `s` is marked.
pub open spec fn marked(deps: Seq<TaskDependency>, start: Seq<char>, marks: Seq<bool>, s: Seq<char>) -> bool {
    exists|j: int| 0 <= j < marks.len() && #[trigger] marks[j] && node(deps, start, j) == s
}

/// The number of marks not yet set.
pub open spec fn unset(marks: Seq<bool>) -> nat
    decreases marks.len(),
{
    if marks.len() == 0 {
        0
    } else {
        unset(marks.drop_last()) + if marks.last() {
            0nat
        } else {
            1nat
        }
    }
}

proof fn lemma_unset_set(marks: Seq<bool>, j: int)
    requires
        0 <= j < marks.len(),
        !marks[j],
    ensures
        unset(marks.update(j, true)) + 1 == unset(marks),
    decreases marks.len(),
{
    if j < marks.len() - 1 {
        assert(marks.update(j, true).drop_last() =~= marks.drop_last().update(j, true));
        lemma_unset_set(marks.drop_last(), j);
    } else {
        assert(marks.update(j, true).drop_last() =~= marks.drop_last());
    }
}

proof fn lemma_closed_reaches(deps: Seq<TaskDependency>, start: Seq<char>, marks: Seq<bool>, p: Seq<Seq<char>>)
    requires
        marks.len() == deps.len() + 1,
        marks[0],
        dep_path(deps, p),
        p[0] == start,
        forall|k: int|
            0 <= k < deps.len() && marked(deps, start, marks, #[trigger] deps[k].task_id@) ==> marks[k + 1],
    ensures
        marked(deps, start, marks, p.last()),
    decreases p.len(),
{
    if p.len() == 1 {
        assert(marks[0] && node(deps, start, 0) == p.last());
    } else {
        let q = p.drop_last();
        assert(dep_path(deps, q)) by {
            assert forall|i: int| 0 <= i < q.len() - 1 implies #[trigger] dep_edge(deps, q[i], q[i + 1]) by {
                assert(dep_edge(deps, p[i], p[i + 1]));
            }
        }
        lemma_closed_reaches(deps, start, marks, q);
        let i = p.len() - 2;
        assert(dep_edge(deps, p[i], p[i + 1]));
        let k = choose|k: int|
            0 <= k < deps.len() && #[trigger] deps[k].task_id@ == p[p.len() - 2] && deps[k].depends_on_id@ == p[p.len()
                - 1];
        assert(q.last() == p[p.len() - 2]);
        assert(marks[k + 1]);
        assert(node(deps, start, k + 1) == p.last());
    }
}

/// Whether adding "`task_id` depends on `depends_on_id`" would close a cycle:
/// `depends_on_id` is `task_id`, or already depends on it through the
/// records `deps`.
pub fn detect_cycle(deps: &Vec<TaskDependency>, task_id: &str, depends_on_id: &str) -> (r: bool)
    ensures
        r == reaches(deps@, depends_on_id@, task_id@),
{
    let m = deps.len();
    let start = String::from_str(depends_on_id);
    let mut marks: Vec<bool> = Vec::new();
    marks.push(true);
    let mut i: usize = 0;
    while i < m
        invariant
            i <= m,
            m == deps@.len(),
            marks@.len() == i + 1,
            marks@[0],
            forall|j: int| 1 <= j < i + 1 ==> !#[trigger] marks@[j],
        decreases m - i,
    {
        marks.push(false);
        i = i + 1;
    }
    let total = marks.len();
    proof {
        assert forall|j: int| 0 <= j < marks@.len() && #[trigger] marks@[j] implies reaches(
            deps@,
            start@,
            node(deps@, start@, j),
        ) by {
            assert(j == 0);
            assert(dep_path(deps@, seq![start@]));
        }
    }
    loop
        invariant
            m == deps@.len(),
            total == m + 1,
            marks@.len() == m + 1,
            marks@[0],
            forall|j: int|
                0 <= j < marks@.len() && #[trigger] marks@[j] ==> reaches(deps@, start@, node(deps@, start@, j)),
        ensures
            marks@.len() == m + 1,
            marks@[0],
            forall|j: int|
                0 <= j < marks@.len() && #[trigger] marks@[j] ==> reaches(deps@, start@, node(deps@, start@, j)),
            forall|k: int|
                0 <= k < m && marked(deps@, start@, marks@, #[trigger] deps@[k].task_id@) ==> marks@[k + 1],
        decreases unset(marks@),
    {
        let ghost before = marks@;
        let mut changed = false;
        let mut k: usize = 0;
        while k < m
            invariant
                m == deps@.len(),
                total == m + 1,
                marks@.len() == m + 1,
                marks@[0],
                k <= m,
                forall|j: int|
                    0 <= j < marks@.len() && #[trigger] marks@[j] ==> reaches(deps@, start@, node(deps@, start@, j)),
                forall|j: int| 0 <= j < marks@.len() && #[trigger] before[j] ==> marks@[j],
                before.len() == m + 1,
                !changed ==> marks@ == before,
                changed ==> unset(marks@) < unset(before),
                !changed ==> forall|q: int|
                    0 <= q < k && marked(deps@, start@, marks@, #[trigger] deps@[q].task_id@) ==> marks@[q + 1],
            decreases m - k,
        {
            if !marks[k + 1] {
                // is the source of record `k` marked?
                let src = &deps[k].task_id;
                let mut found = false;
                let mut j: usize = 0;
                while j < total
                    invariant
                        m == deps@.len(),
                        total == m + 1,
                        marks@.len() == m + 1,
                        k < m,
                        *src == deps@[k as int].task_id,
                        j <= m + 1,
                        found == exists|jj: int|
                            0 <= jj < j && #[trigger] marks@[jj] && node(deps@, start@, jj) == src@,
                    decreases total - j,
                {
                    let hit = marks[j] && (if j == 0 {
                        start == *src
                    } else {
                        deps[j - 1].depends_on_id == *src
                    });
                    proof {
                        if found {
                            let jj = choose|jj: int| 0 <= jj < j && #[trigger] marks@[jj] && node(deps@, start@, jj) == src@;
                            assert(0 <= jj < j + 1);
                        }
                        if exists|jj: int| 0 <= jj < j + 1 && #[trigger] marks@[jj] && node(deps@, start@, jj) == src@ {
                            let jj = choose|jj: int|
                                0 <= jj < j + 1 && #[trigger] marks@[jj] && node(deps@, start@, jj) == src@;
                            if jj < j {
                                assert(found);
                            }
                        }
                    }
                    found = found || hit;
                    j = j + 1;
                }
                if found {
                    let ghost old_marks = marks@;
                    proof {
                        let jj = choose|jj: int| 0 <= jj < m + 1 && #[trigger] marks@[jj] && node(deps@, start@, jj) == src@;
                        let p = choose|p: Seq<Seq<char>>|
                            #[trigger] dep_path(deps@, p) && p[0] == start@ && p.last() == node(deps@, start@, jj);
                        let p2 = p.push(deps@[k as int].depends_on_id@);
                        assert(dep_edge(deps@, p.last(), deps@[k as int].depends_on_id@));
                        assert(dep_path(deps@, p2)) by {
                            assert forall|i: int| 0 <= i < p2.len() - 1 implies #[trigger] dep_edge(deps@, p2[i], p2[i + 1]) by {
                                if i < p.len() - 1 {
                                    assert(p2[i] == p[i] && p2[i + 1] == p[i + 1]);
                                } else {
                                    assert(p2[i] == p.last());
                                }
                            }
                        }
                        assert(reaches(deps@, start@, node(deps@, start@, k as int + 1)));
                        lemma_unset_set(old_marks, k as int + 1);
                    }
                    marks.set(k + 1, true);
                    changed = true;
                } else {
                    proof {
                        assert(!marked(deps@, start@, marks@, deps@[k as int].task_id@));
                    }
                }
            }
            k = k + 1;
        }
        if !changed {
            break;
        }
    }
    // is `task_id` marked?
    let target = String::from_str(task_id);
    let mut found = false;
    let mut j: usize = 0;
    while j < total
        invariant
            m == deps@.len(),
            total == m + 1,
            marks@.len() == m + 1,
            j <= m + 1,
            found == exists|jj: int| 0 <= jj < j && #[trigger] marks@[jj] && node(deps@, start@, jj) == target@,
        decreases total - j,
    {
        let hit = marks[j] && (if j == 0 {
            start == target
        } else {
            deps[j - 1].depends_on_id == target
        });
        proof {
            if found {
                let jj = choose|jj: int| 0 <= jj < j && #[trigger] marks@[jj] && node(deps@, start@, jj) == target@;
                assert(0 <= jj < j + 1);
            }
            if exists|jj: int| 0 <= jj < j + 1 && #[trigger] marks@[jj] && node(deps@, start@, jj) == target@ {
                let jj = choose|jj: int| 0 <= jj < j + 1 && #[trigger] marks@[jj] && node(deps@, start@, jj) == target@;
                if jj < j {
                    assert(found);
                }
            }
        }
        found = found || hit;
        j = j + 1;
    }
    proof {
        if found {
            let jj = choose|jj: int| 0 <= jj < m + 1 && #[trigger] marks@[jj] && node(deps@, start@, jj) == target@;
            assert(reaches(deps@, start@, node(deps@, start@, jj)));
        }
        if reaches(deps@, start@, target@) {
            let p = choose|p: Seq<Seq<char>>| #[trigger] dep_path(deps@, p) && p[0] == start@ && p.last() == target@;
            lemma_closed_reaches(deps@, start@, marks@, p);
        }
    }
    found
}

} // verus!

verus! {

/// Among the first `n` pairs, one reads "`a` depends on `b`".
pub open spec fn pair_listed_upto(pairs: Seq<(String, String)>, n: int, a: Seq<char>, b: Seq<char>) -> bool {
    exists|k: int| #![trigger pairs[k]] 0 <= k < n && pairs[k].0@ == a && pairs[k].1@ == b
}

/// One of the pairs reads "`a` depends on `b`".
pub open spec fn pair_listed(pairs: Seq<(String, String)>, a: Seq<char>, b: Seq<char>) -> bool {
    pair_listed_upto(pairs, pairs.len() as int, a, b)
}

/// Among the first `n` pairs, one has `a` as its dependent task.
pub open spec fn key_listed_upto(pairs: Seq<(String, String)>, n: int, a: Seq<char>) -> bool {
    exists|k: int| #![trigger pairs[k]] 0 <= k < n && pairs[k].0@ == a
}

/// The texts `v` hold `b`.
pub open spec fn holds_text(v: Seq<String>, b: Seq<char>) -> bool {
    exists|m: int| 0 <= m < v.len() && #[trigger] v[m]@ == b
}

fn copy_texts(v: &Vec<String>) -> (r: Vec<String>)
    ensures
        r@ == v@,
{
    let mut r: Vec<String> = Vec::new();
    let mut i: usize = 0;
    while i < v.len()
        invariant
            i <= v@.len(),
            r@ == v@.take(i as int),
        decreases v@.len() - i,
    {
        r.push(v[i].clone());
        i = i + 1;
        assert(r@ =~= v@.take(i as int));
    }
    assert(v@.take(v@.len() as int) =~= v@);
    r
}

/// Groups "task depends on task" pairs by the dependent task: one entry per
/// task that depends on another, listing what it depends on.
pub fn group_dependency_pairs(pairs: &Vec<(String, String)>) -> (r: Vec<DepList>)
    ensures
        keys_distinct(r@),
        forall|a: Seq<char>| #[trigger] has_entry(r@, a) <==> key_listed_upto(pairs@, pairs@.len() as int, a),
        forall|a: Seq<char>, b: Seq<char>| #[trigger] listed_dep(r@, a, b) <==> pair_listed(pairs@, a, b),
{
    let mut r: Vec<DepList> = Vec::new();
    let mut i: usize = 0;
    while i < pairs.len()
        invariant
            i <= pairs@.len(),
            keys_distinct(r@),
            forall|e: int| 0 <= e < r@.len() ==> key_listed_upto(pairs@, i as int, #[trigger] r@[e].task_id@),
            forall|k: int| 0 <= k < i ==> has_entry(r@, #[trigger] pairs@[k].0@),
            forall|e: int, b: Seq<char>|
                #![trigger holds_text(r@[e].depends_on@, b)]
                #![trigger pair_listed_upto(pairs@, i as int, r@[e].task_id@, b)]
                0 <= e < r@.len() ==> (holds_text(r@[e].depends_on@, b) <==> pair_listed_upto(
                    pairs@,
                    i as int,
                    r@[e].task_id@,
                    b,
                )),
        decreases pairs@.len() - i,
    {
        let ghost old_r = r@;
        let ghost a = pairs@[i as int].0@;
        let ghost b0 = pairs@[i as int].1@;
        let found = find_entry(&r, &pairs[i].0);
        match found {
            None => {
                let d = DepList { task_id: pairs[i].0.clone(), depends_on: vec![pairs[i].1.clone()] };
                r.push(d);
                proof {
                    assert(r@[old_r.len() as int].task_id@ == a);
                    assert forall|x: int, y: int|
                        0 <= x < r@.len() && 0 <= y < r@.len() && x != y implies #[trigger] r@[x].task_id@
                            != #[trigger] r@[y].task_id@ by {
                        if x == old_r.len() {
                            assert(old_r[y].task_id@ != a);
                        } else if y == old_r.len() {
                            assert(old_r[x].task_id@ != a);
                        } else {
                            assert(old_r[x].task_id@ != old_r[y].task_id@);
                        }
                    }
                }
            },
            Some(e) => {
                let mut list = copy_texts(&r[e].depends_on);
                list.push(pairs[i].1.clone());
                let d = DepList { task_id: r[e].task_id.clone(), depends_on: list };
                r.set(e, d);
                proof {
                    assert forall|x: int, y: int|
                        0 <= x < r@.len() && 0 <= y < r@.len() && x != y implies #[trigger] r@[x].task_id@
                            != #[trigger] r@[y].task_id@ by {
                        assert(r@[x].task_id@ == old_r[x].task_id@);
                        assert(r@[y].task_id@ == old_r[y].task_id@);
                    }
                }
            },
        }
        proof {
            let n = i as int;
            assert forall|x: int| 0 <= x < r@.len() implies key_listed_upto(pairs@, n + 1, #[trigger] r@[x].task_id@) by {
                if x < old_r.len() {
                    assert(r@[x].task_id@ == old_r[x].task_id@);
                    assert(key_listed_upto(pairs@, n, old_r[x].task_id@));
                    let k = choose|k: int| #![trigger pairs@[k]] 0 <= k < n && pairs@[k].0@ == old_r[x].task_id@;
                    assert(pairs@[k].0@ == r@[x].task_id@);
                } else {
                    assert(pairs@[n].0@ == r@[x].task_id@);
                }
            }
            assert forall|k: int| 0 <= k < n + 1 implies has_entry(r@, #[trigger] pairs@[k].0@) by {
                if k < n {
                    assert(has_entry(old_r, pairs@[k].0@));
                    let w = choose|w: int| 0 <= w < old_r.len() && #[trigger] old_r[w].task_id@ == pairs@[k].0@;
                    assert(r@[w].task_id@ == old_r[w].task_id@);
                } else {
                    let w = if found is Some { found->0 as int } else { old_r.len() as int };
                    assert(r@[w].task_id@ == a);
                }
            }
            assert forall|x: int, b: Seq<char>|
                0 <= x < r@.len() implies (#[trigger] holds_text(r@[x].depends_on@, b) <==> #[trigger] pair_listed_upto(
                    pairs@,
                    n + 1,
                    r@[x].task_id@,
                    b,
                )) by {
                let key = r@[x].task_id@;
                let is_new = found is None && x == old_r.len();
                let is_upd = found is Some && x == found->0;
                if pair_listed_upto(pairs@, n + 1, key, b) {
                    let k = choose|k: int| #![trigger pairs@[k]] 0 <= k < n + 1 && pairs@[k].0@ == key && pairs@[k].1@ == b;
                    if k == n {
                        if is_new {
                            assert(r@[x].depends_on@[0]@ == b);
                        } else if is_upd {
                            assert(r@[x].depends_on@[old_r[x].depends_on@.len() as int]@ == b);
                        } else {
                            assert(x < old_r.len());
                            assert(old_r[x].task_id@ == key);
                            if found is Some {
                                assert(old_r[found->0 as int].task_id@ == a);
                            } else {
                                assert(!has_entry(old_r, a));
                            }
                        }
                    } else {
                        assert(pair_listed_upto(pairs@, n, key, b));
                        if is_new {
                            assert(has_entry(old_r, key));
                        } else {
                            assert(old_r[x].task_id@ == key);
                            assert(holds_text(old_r[x].depends_on@, b));
                            let m = choose|m: int| 0 <= m < old_r[x].depends_on@.len() && #[trigger] old_r[x].depends_on@[m]@ == b;
                            assert(r@[x].depends_on@[m]@ == b);
                        }
                    }
                }
                if holds_text(r@[x].depends_on@, b) {
                    let m = choose|m: int| 0 <= m < r@[x].depends_on@.len() && #[trigger] r@[x].depends_on@[m]@ == b;
                    if is_new {
                        assert(pairs@[n].0@ == key && pairs@[n].1@ == b);
                    } else if is_upd && m == old_r[x].depends_on@.len() {
                        assert(pairs@[n].0@ == key && pairs@[n].1@ == b);
                    } else {
                        assert(old_r[x].depends_on@[m]@ == b);
                        assert(holds_text(old_r[x].depends_on@, b));
                        assert(old_r[x].task_id@ == key);
                        assert(pair_listed_upto(pairs@, n, key, b));
                        let k = choose|k: int| #![trigger pairs@[k]] 0 <= k < n && pairs@[k].0@ == key && pairs@[k].1@ == b;
                        assert(pairs@[k].0@ == key);
                    }
                }
            }
        }
        i = i + 1;
    }
    proof {
        let n = pairs@.len() as int;
        assert forall|a: Seq<char>| #[trigger] has_entry(r@, a) <==> key_listed_upto(pairs@, n, a) by {
            if has_entry(r@, a) {
                let w = choose|w: int| 0 <= w < r@.len() && #[trigger] r@[w].task_id@ == a;
                assert(key_listed_upto(pairs@, n, r@[w].task_id@));
            }
            if key_listed_upto(pairs@, n, a) {
                let k = choose|k: int| #![trigger pairs@[k]] 0 <= k < n && pairs@[k].0@ == a;
                assert(has_entry(r@, pairs@[k].0@));
            }
        }
        assert forall|a: Seq<char>, b: Seq<char>| #[trigger] listed_dep(r@, a, b) <==> pair_listed(pairs@, a, b) by {
            if has_entry(r@, a) {
                let w = entry_of(r@, a);
                assert(r@[w].task_id@ == a);
                assert(holds_text(r@[w].depends_on@, b) <==> pair_listed_upto(pairs@, n, r@[w].task_id@, b));
                if holds_text(r@[w].depends_on@, b) {
                    let m = choose|m: int| 0 <= m < r@[w].depends_on@.len() && #[trigger] r@[w].depends_on@[m]@ == b;
                    assert(listed_dep(r@, a, b));
                }
            } else {
                if pair_listed(pairs@, a, b) {
                    let k = choose|k: int| #![trigger pairs@[k]] 0 <= k < n && pairs@[k].0@ == a && pairs@[k].1@ == b;
                    assert(has_entry(r@, pairs@[k].0@));
                }
            }
        }
    }
    r
}

} // verus!
