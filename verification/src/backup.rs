//! Backups: checking an import before it runs, planning the writes of an
//! import, assembling an export, and the rules on backup file paths.

use vstd::prelude::*;
use vstd::string::*;

use crate::dependency::ids_distinct;
use crate::error::{is_param_err, AppError, AppResult};
use crate::models::{is_conflict_mode, Encouragement, ExportData, Goal, ImportResult, Setting, Task, TaskDependency};
use crate::textorder::views;
use crate::util::{new_uuid, now_local_ts, spec_trim, str_eq, trim_str};

verus! {

/// A task status that a backup may hold.
pub open spec fn is_task_status(s: Seq<char>) -> bool {
    s == "pending"@ || s == "partial"@ || s == "done"@ || s == "skipped"@
}

/// A task source that a backup may hold.
pub open spec fn is_task_source(s: Seq<char>) -> bool {
    s == "auto"@ || s == "manual"@
}

/// An encouragement category that a backup may hold.
pub open spec fn is_category(s: Seq<char>) -> bool {
    s == "preset"@ || s == "custom"@
}

/// An encouragement level that a backup may hold.
pub open spec fn is_stored_level(s: Seq<char>) -> bool {
    s == "normal"@ || s == "advanced"@ || s == "highlight"@ || s == "celebration"@ || s == "setback"@ || s
        == "longest_streak"@
}

/// The first position, among the first `upto` tasks, with an invalid status
/// or source.
pub open spec fn first_bad_task(tasks: Seq<Task>, upto: int) -> Option<int>
    decreases upto,
{
    if upto <= 0 {
        None
    } else {
        match first_bad_task(tasks, upto - 1) {
            Some(k) => Some(k),
            None => if !is_task_status(tasks[upto - 1].status@) || !is_task_source(tasks[upto - 1].source@) {
                Some(upto - 1)
            } else {
                None
            },
        }
    }
}

/// The first position, among the first `upto` texts, with an invalid
/// category or level.
pub open spec fn first_bad_encouragement(encs: Seq<Encouragement>, upto: int) -> Option<int>
    decreases upto,
{
    if upto <= 0 {
        None
    } else {
        match first_bad_encouragement(encs, upto - 1) {
            Some(k) => Some(k),
            None => if !is_category(encs[upto - 1].category@) || !is_stored_level(encs[upto - 1].level@) {
                Some(upto - 1)
            } else {
                None
            },
        }
    }
}

/// The message for an invalid task `t`.
pub open spec fn bad_task_text(t: Task) -> Seq<char> {
    if !is_task_status(t.status@) {
        "任务 "@ + t.id@ + " 的 status 非法: "@ + t.status@
    } else {
        "任务 "@ + t.id@ + " 的 source 非法: "@ + t.source@
    }
}

/// The message for an invalid text `e`.
pub open spec fn bad_encouragement_text(e: Encouragement) -> Seq<char> {
    if !is_category(e.category@) {
        "鼓励语 "@ + e.id@ + " 的 category 非法: "@ + e.category@
    } else {
        "鼓励语 "@ + e.id@ + " 的 level 非法: "@ + e.level@
    }
}

fn task_status_ok(s: &str) -> (r: bool)
    ensures
        r == is_task_status(s@),
{
    str_eq(s, "pending") || str_eq(s, "partial") || str_eq(s, "done") || str_eq(s, "skipped")
}

fn category_ok(s: &str) -> (r: bool)
    ensures
        r == is_category(s@),
{
    str_eq(s, "preset") || str_eq(s, "custom")
}

fn stored_level_ok(s: &str) -> (r: bool)
    ensures
        r == is_stored_level(s@),
{
    str_eq(s, "normal") || str_eq(s, "advanced") || str_eq(s, "highlight") || str_eq(s, "celebration") || str_eq(
        s,
        "setback",
    ) || str_eq(s, "longest_streak")
}

/// Checks the enumerated fields of a backup: every task's status and
/// source, then every text's category and level; the first invalid one is
/// reported.
pub fn validate_import_payload(data: &ExportData) -> (r: AppResult<()>)
    ensures
        first_bad_task(data.tasks@, data.tasks@.len() as int) is Some ==> r is Err && is_param_err(
            r->Err_0,
            bad_task_text(data.tasks@[first_bad_task(data.tasks@, data.tasks@.len() as int)->0]),
        ),
        first_bad_task(data.tasks@, data.tasks@.len() as int) is None && first_bad_encouragement(
            data.encouragements@,
            data.encouragements@.len() as int,
        ) is Some ==> r is Err && is_param_err(
            r->Err_0,
            bad_encouragement_text(
                data.encouragements@[first_bad_encouragement(
                    data.encouragements@,
                    data.encouragements@.len() as int,
                )->0],
            ),
        ),
        first_bad_task(data.tasks@, data.tasks@.len() as int) is None && first_bad_encouragement(
            data.encouragements@,
            data.encouragements@.len() as int,
        ) is None ==> r is Ok,
{
    let mut k: usize = 0;
    while k < data.tasks.len()
        invariant
            k <= data.tasks@.len(),
            first_bad_task(data.tasks@, k as int) is None,
        decreases data.tasks@.len() - k,
    {
        let t = &data.tasks[k];
        if !task_status_ok(t.status.as_str()) {
            proof {
                lemma_first_bad_task_stays(data.tasks@, k as int + 1, data.tasks@.len() as int);
            }
            return Err(
                AppError::Param(
                    String::from_str("任务 ").concat(t.id.as_str()).concat(" 的 status 非法: ").concat(
                        t.status.as_str(),
                    ),
                ),
            );
        }
        if !(str_eq(t.source.as_str(), "auto") || str_eq(t.source.as_str(), "manual")) {
            proof {
                lemma_first_bad_task_stays(data.tasks@, k as int + 1, data.tasks@.len() as int);
            }
            return Err(
                AppError::Param(
                    String::from_str("任务 ").concat(t.id.as_str()).concat(" 的 source 非法: ").concat(
                        t.source.as_str(),
                    ),
                ),
            );
        }
        k = k + 1;
    }
    let mut k: usize = 0;
    while k < data.encouragements.len()
        invariant
            k <= data.encouragements@.len(),
            first_bad_task(data.tasks@, data.tasks@.len() as int) is None,
            first_bad_encouragement(data.encouragements@, k as int) is None,
        decreases data.encouragements@.len() - k,
    {
        let e = &data.encouragements[k];
        if !category_ok(e.category.as_str()) {
            proof {
                lemma_first_bad_enc_stays(data.encouragements@, k as int + 1, data.encouragements@.len() as int);
            }
            return Err(
                AppError::Param(
                    String::from_str("鼓励语 ").concat(e.id.as_str()).concat(" 的 category 非法: ").concat(
                        e.category.as_str(),
                    ),
                ),
            );
        }
        if !stored_level_ok(e.level.as_str()) {
            proof {
                lemma_first_bad_enc_stays(data.encouragements@, k as int + 1, data.encouragements@.len() as int);
            }
            return Err(
                AppError::Param(
                    String::from_str("鼓励语 ").concat(e.id.as_str()).concat(" 的 level 非法: ").concat(
                        e.level.as_str(),
                    ),
                ),
            );
        }
        k = k + 1;
    }
    Ok(())
}

proof fn lemma_first_bad_task_stays(tasks: Seq<Task>, a: int, b: int)
    requires
        0 <= a <= b <= tasks.len(),
        first_bad_task(tasks, a) is Some,
    ensures
        first_bad_task(tasks, b) == first_bad_task(tasks, a),
    decreases b - a,
{
    if b > a {
        lemma_first_bad_task_stays(tasks, a, b - 1);
    }
}

proof fn lemma_first_bad_enc_stays(encs: Seq<Encouragement>, a: int, b: int)
    requires
        0 <= a <= b <= encs.len(),
        first_bad_encouragement(encs, a) is Some,
    ensures
        first_bad_encouragement(encs, b) == first_bad_encouragement(encs, a),
    decreases b - a,
{
    if b > a {
        lemma_first_bad_enc_stays(encs, a, b - 1);
    }
}

/// The settings keys that an import may write.
pub open spec fn import_key_allowed(k: Seq<char>) -> bool {
    ||| k == "theme"@
    ||| k == "encouragement_enabled"@
    ||| k == "encouragement_frequency"@
    ||| k == "encouragement_style"@
    ||| k == "encouragement_celebration_animation"@
    ||| k == "encouragement_emoji_enabled"@
    ||| k == "last_streak_check_date"@
    ||| k == "last_streak_value"@
}

/// Whether an import may write the settings key `k`.
pub fn setting_key_allowed(k: &str) -> (r: bool)
    ensures
        r == import_key_allowed(k@),
{
    str_eq(k, "theme") || str_eq(k, "encouragement_enabled") || str_eq(k, "encouragement_frequency") || str_eq(
        k,
        "encouragement_style",
    ) || str_eq(k, "encouragement_celebration_animation") || str_eq(k, "encouragement_emoji_enabled") || str_eq(
        k,
        "last_streak_check_date",
    ) || str_eq(k, "last_streak_value")
}

/// A full backup of the given tables, stamped now, in format `2.1`; stages
/// are no longer kept.
pub fn export_data(
    goals: Vec<Goal>,
    tasks: Vec<Task>,
    task_dependencies: Vec<TaskDependency>,
    encouragements: Vec<Encouragement>,
    settings: Vec<Setting>,
) -> (r: ExportData)
    ensures
        r.version@ == "2.1"@,
        r.goals == goals,
        r.stages@.len() == 0,
        r.tasks == tasks,
        r.task_dependencies == task_dependencies,
        r.encouragements == encouragements,
        r.settings == settings,
{
    ExportData {
        version: String::from_str("2.1"),
        exported_at: now_local_ts(),
        goals,
        stages: Vec::new(),
        tasks,
        task_dependencies,
        encouragements,
        settings,
    }
}

/// One write of an import.
#[derive(Debug)]
pub enum ImportOp {
    /// Write goal `index` of the backup under `id`; `upsert` replaces the
    /// stored goal with that id.
    WriteGoal { id: String, index: usize, upsert: bool },
    /// Write task `index` of the backup under `id`, in goal `goal_id`;
    /// `upsert` replaces the stored task with that id.
    WriteTask { id: String, goal_id: String, index: usize, upsert: bool },
    /// Write dependency `index` of the backup under `id` between the given
    /// tasks (replacing the stored one between them, if any).
    WriteDependency { id: String, task_id: String, depends_on_id: String, index: usize },
    /// Write text `index` of the backup under `id` (replacing the text of
    /// the stored one with that id, if any).
    WriteEncouragement { id: String, index: usize },
    /// Write setting `index` of the backup.
    WriteSetting { index: usize },
}

/// The ids already stored before an import.
#[derive(Debug)]
pub struct StoredIds {
    pub goal_ids: Vec<String>,
    pub task_ids: Vec<String>,
    /// Pairs of (task, prerequisite) of the stored dependencies.
    pub dependency_pairs: Vec<(String, String)>,
    pub encouragement_ids: Vec<String>,
}

/// The writes of an import, in order, and its counts.
#[derive(Debug)]
pub struct ImportPlan {
    pub ops: Vec<ImportOp>,
    pub result: ImportResult,
}

/// The views of a list of (key, value) pairs, keys as texts.
pub open spec fn key_views(v: Seq<(String, String)>) -> Seq<(Seq<char>, String)> {
    v.map_values(|p: (String, String)| (p.0@, p.1))
}

/// The views of a list of pairs of texts.
pub open spec fn pair_views(v: Seq<(String, String)>) -> Seq<(Seq<char>, Seq<char>)> {
    v.map_values(|p: (String, String)| (p.0@, p.1@))
}

/// The value last given to key `k`.
pub open spec fn lookup(map: Seq<(Seq<char>, String)>, k: Seq<char>) -> Option<String>
    decreases map.len(),
{
    if map.len() == 0 {
        None
    } else if map.last().0 == k {
        Some(map.last().1)
    } else {
        lookup(map.drop_last(), k)
    }
}

/// The state after the first `n` goals of an import: the goal ids stored,
/// the new ids of renamed goals, the numbers imported and skipped, the
/// number of fresh ids used, and the writes.
pub open spec fn goal_phase(ids0: Seq<Seq<char>>, goals: Seq<Goal>, mode: Seq<char>, fresh: Seq<String>, n: int) -> (
    Seq<Seq<char>>,
    Seq<(Seq<char>, String)>,
    int,
    int,
    int,
    Seq<ImportOp>,
)
    decreases n,
{
    if n <= 0 {
        (ids0, Seq::empty(), 0, 0, 0, Seq::empty())
    } else {
        let s = goal_phase(ids0, goals, mode, fresh, n - 1);
        let g = goals[n - 1];
        let i = (n - 1) as usize;
        if !s.0.contains(g.id@) {
            (s.0.push(g.id@), s.1, s.2 + 1, s.3, s.4, s.5.push(ImportOp::WriteGoal { id: g.id, index: i, upsert: false }))
        } else if mode == "skip"@ {
            (s.0, s.1, s.2, s.3 + 1, s.4, s.5)
        } else if mode == "overwrite"@ {
            (s.0, s.1, s.2 + 1, s.3, s.4, s.5.push(ImportOp::WriteGoal { id: g.id, index: i, upsert: true }))
        } else {
            let nid = fresh[s.4];
            (
                s.0.push(nid@),
                s.1.push((g.id@, nid)),
                s.2 + 1,
                s.3,
                s.4 + 1,
                s.5.push(ImportOp::WriteGoal { id: nid, index: i, upsert: false }),
            )
        }
    }
}

fn contains_text(v: &Vec<String>, s: &String) -> (r: bool)
    ensures
        r == views(v@).contains(s@),
{
    let mut k: usize = 0;
    while k < v.len()
        invariant
            k <= v@.len(),
            forall|q: int| 0 <= q < k ==> #[trigger] v@[q]@ != s@,
        decreases v@.len() - k,
    {
        if v[k] == *s {
            proof {
                assert(views(v@)[k as int] == s@);
            }
            return true;
        }
        k = k + 1;
    }
    proof {
        if views(v@).contains(s@) {
            let q = choose|q: int| 0 <= q < views(v@).len() && views(v@)[q] == s@;
            assert(v@[q]@ == s@);
        }
    }
    false
}

fn push_text(v: &mut Vec<String>, s: String)
    ensures
        views(final(v)@) == views(old(v)@).push(s@),
{
    let ghost before = v@;
    v.push(s);
    proof {
        assert(views(v@) =~= views(before).push(s@));
    }
}

fn lookup_key(map: &Vec<(String, String)>, k: &String) -> (r: Option<String>)
    ensures
        r == lookup(key_views(map@), k@),
{
    let mut i: usize = map.len();
    proof {
        assert(map@.subrange(0, map@.len() as int) =~= map@);
    }
    while i > 0
        invariant
            i <= map@.len(),
            lookup(key_views(map@), k@) == lookup(key_views(map@.subrange(0, i as int)), k@),
        decreases i,
    {
        proof {
            assert(key_views(map@.subrange(0, i as int)).drop_last() =~= key_views(map@.subrange(0, i as int - 1)));
        }
        if map[i - 1].0 == *k {
            return Some(map[i - 1].1.clone());
        }
        i = i - 1;
    }
    None
}

fn goal_writes(stored: &Vec<String>, goals: &Vec<Goal>, mode: &str, fresh: &Vec<String>, ops: &mut Vec<ImportOp>) -> (r: (
    Vec<String>,
    Vec<(String, String)>,
    usize,
    usize,
    usize,
))
    requires
        fresh@.len() >= goals@.len(),
        mode@ == "skip"@ || mode@ == "overwrite"@ || mode@ == "rename"@,
    ensures
        ({
            let s = goal_phase(views(stored@), goals@, mode@, fresh@, goals@.len() as int);
            &&& views(r.0@) == s.0
            &&& key_views(r.1@) == s.1
            &&& r.2 == s.2
            &&& r.3 == s.3
            &&& r.4 == s.4
            &&& r.4 <= goals@.len()
            &&& final(ops)@ == old(ops)@ + s.5
        }),
{
    let ghost ops0 = ops@;
    let mut ids: Vec<String> = Vec::new();
    let mut i: usize = 0;
    while i < stored.len()
        invariant
            i <= stored@.len(),
            views(ids@) == views(stored@.subrange(0, i as int)),
        decreases stored@.len() - i,
    {
        push_text(&mut ids, stored[i].clone());
        proof {
            assert(views(stored@.subrange(0, i as int + 1)) =~= views(stored@.subrange(0, i as int)).push(stored@[i as int]@));
        }
        i = i + 1;
    }
    proof {
        assert(stored@.subrange(0, stored@.len() as int) =~= stored@);
    }
    let mut gmap: Vec<(String, String)> = Vec::new();
    let mut imported: usize = 0;
    let mut skipped: usize = 0;
    let mut used: usize = 0;
    let mut k: usize = 0;
    while k < goals.len()
        invariant
            k <= goals@.len(),
            fresh@.len() >= goals@.len(),
            mode@ == "skip"@ || mode@ == "overwrite"@ || mode@ == "rename"@,
            ({
                let s = goal_phase(views(stored@), goals@, mode@, fresh@, k as int);
                &&& views(ids@) == s.0
                &&& key_views(gmap@) == s.1
                &&& imported == s.2
                &&& skipped == s.3
                &&& used == s.4
                &&& ops@ == ops0 + s.5
            }),
            imported + skipped == k,
            used <= k,
        decreases goals@.len() - k,
    {
        let g = &goals[k];
        let ghost s = goal_phase(views(stored@), goals@, mode@, fresh@, k as int);
        let ghost old_ops = ops@;
        let ghost old_gmap = gmap@;
        if !contains_text(&ids, &g.id) {
            push_text(&mut ids, g.id.clone());
            ops.push(ImportOp::WriteGoal { id: g.id.clone(), index: k, upsert: false });
            imported = imported + 1;
            proof {
                assert(ops@ =~= ops0 + s.5.push(ImportOp::WriteGoal { id: g.id, index: k, upsert: false }));
            }
        } else if str_eq(mode, "skip") {
            skipped = skipped + 1;
        } else if str_eq(mode, "overwrite") {
            ops.push(ImportOp::WriteGoal { id: g.id.clone(), index: k, upsert: true });
            imported = imported + 1;
            proof {
                assert(ops@ =~= ops0 + s.5.push(ImportOp::WriteGoal { id: g.id, index: k, upsert: true }));
            }
        } else {
            let nid = fresh[used].clone();
            push_text(&mut ids, nid.clone());
            gmap.push((g.id.clone(), nid.clone()));
            ops.push(ImportOp::WriteGoal { id: nid, index: k, upsert: false });
            imported = imported + 1;
            used = used + 1;
            proof {
                assert(key_views(gmap@) =~= key_views(old_gmap).push((g.id@, fresh@[s.4])));
                assert(ops@ =~= ops0 + s.5.push(ImportOp::WriteGoal { id: fresh@[s.4], index: k, upsert: false }));
            }
        }
        k = k + 1;
    }
    (ids, gmap, imported, skipped, used)
}

/// The goal of task `t` after an import: with renaming, the new id of its
/// renamed goal; otherwise its own.
pub open spec fn mapped_goal(gmap: Seq<(Seq<char>, String)>, mode: Seq<char>, t: Task) -> String {
    if mode == "rename"@ {
        match lookup(gmap, t.goal_id@) {
            Some(x) => x,
            None => t.goal_id,
        }
    } else {
        t.goal_id
    }
}

/// The state after the first `n` tasks of an import: the task ids stored,
/// the id each backup task ends up under, the numbers imported and skipped,
/// the number of fresh ids used, and the writes.
pub open spec fn task_phase(
    ids0: Seq<Seq<char>>,
    tasks: Seq<Task>,
    gmap: Seq<(Seq<char>, String)>,
    mode: Seq<char>,
    fresh: Seq<String>,
    used0: int,
    n: int,
) -> (Seq<Seq<char>>, Seq<(Seq<char>, String)>, int, int, int, Seq<ImportOp>)
    decreases n,
{
    if n <= 0 {
        (ids0, Seq::empty(), 0, 0, used0, Seq::empty())
    } else {
        let s = task_phase(ids0, tasks, gmap, mode, fresh, used0, n - 1);
        let t = tasks[n - 1];
        let i = (n - 1) as usize;
        let mg = mapped_goal(gmap, mode, t);
        if !s.0.contains(t.id@) {
            (
                s.0.push(t.id@),
                s.1.push((t.id@, t.id)),
                s.2 + 1,
                s.3,
                s.4,
                s.5.push(ImportOp::WriteTask { id: t.id, goal_id: mg, index: i, upsert: false }),
            )
        } else if mode == "skip"@ {
            (s.0, s.1.push((t.id@, t.id)), s.2, s.3 + 1, s.4, s.5)
        } else if mode == "overwrite"@ {
            (
                s.0,
                s.1.push((t.id@, t.id)),
                s.2 + 1,
                s.3,
                s.4,
                s.5.push(ImportOp::WriteTask { id: t.id, goal_id: mg, index: i, upsert: true }),
            )
        } else {
            let nid = fresh[s.4];
            (
                s.0.push(nid@),
                s.1.push((t.id@, nid)),
                s.2 + 1,
                s.3,
                s.4 + 1,
                s.5.push(ImportOp::WriteTask { id: nid, goal_id: mg, index: i, upsert: false }),
            )
        }
    }
}

fn task_writes(
    stored: &Vec<String>,
    tasks: &Vec<Task>,
    gmap: &Vec<(String, String)>,
    mode: &str,
    fresh: &Vec<String>,
    used0: usize,
    ops: &mut Vec<ImportOp>,
) -> (r: (Vec<String>, Vec<(String, String)>, usize, usize, usize))
    requires
        fresh@.len() >= used0 + tasks@.len(),
        mode@ == "skip"@ || mode@ == "overwrite"@ || mode@ == "rename"@,
    ensures
        ({
            let s = task_phase(views(stored@), tasks@, key_views(gmap@), mode@, fresh@, used0 as int, tasks@.len() as int);
            &&& views(r.0@) == s.0
            &&& key_views(r.1@) == s.1
            &&& r.2 == s.2
            &&& r.3 == s.3
            &&& r.4 == s.4
            &&& r.4 <= used0 + tasks@.len()
            &&& final(ops)@ == old(ops)@ + s.5
        }),
{
    let ghost ops0 = ops@;
    let mut ids: Vec<String> = Vec::new();
    let mut i: usize = 0;
    while i < stored.len()
        invariant
            i <= stored@.len(),
            views(ids@) == views(stored@.subrange(0, i as int)),
        decreases stored@.len() - i,
    {
        push_text(&mut ids, stored[i].clone());
        proof {
            assert(views(stored@.subrange(0, i as int + 1)) =~= views(stored@.subrange(0, i as int)).push(stored@[i as int]@));
        }
        i = i + 1;
    }
    proof {
        assert(stored@.subrange(0, stored@.len() as int) =~= stored@);
    }
    let rename = str_eq(mode, "rename");
    let fl = fresh.len();
    let mut tmap: Vec<(String, String)> = Vec::new();
    let mut imported: usize = 0;
    let mut skipped: usize = 0;
    let mut used: usize = used0;
    let mut k: usize = 0;
    while k < tasks.len()
        invariant
            k <= tasks@.len(),
            fl == fresh@.len(),
            fresh@.len() >= used0 + tasks@.len(),
            mode@ == "skip"@ || mode@ == "overwrite"@ || mode@ == "rename"@,
            rename == (mode@ == "rename"@),
            ({
                let s = task_phase(views(stored@), tasks@, key_views(gmap@), mode@, fresh@, used0 as int, k as int);
                &&& views(ids@) == s.0
                &&& key_views(tmap@) == s.1
                &&& imported == s.2
                &&& skipped == s.3
                &&& used == s.4
                &&& ops@ == ops0 + s.5
            }),
            imported + skipped == k,
            used0 <= used <= used0 + k,
        decreases tasks@.len() - k,
    {
        let t = &tasks[k];
        let ghost s = task_phase(views(stored@), tasks@, key_views(gmap@), mode@, fresh@, used0 as int, k as int);
        let ghost old_tmap = tmap@;
        let mg = if rename {
            match lookup_key(gmap, &t.goal_id) {
                Some(x) => x,
                None => t.goal_id.clone(),
            }
        } else {
            t.goal_id.clone()
        };
        assert(mg == mapped_goal(key_views(gmap@), mode@, tasks@[k as int]));
        if !contains_text(&ids, &t.id) {
            push_text(&mut ids, t.id.clone());
            tmap.push((t.id.clone(), t.id.clone()));
            ops.push(ImportOp::WriteTask { id: t.id.clone(), goal_id: mg, index: k, upsert: false });
            imported = imported + 1;
            proof {
                assert(key_views(tmap@) =~= key_views(old_tmap).push((t.id@, t.id)));
                assert(ops@ =~= ops0 + s.5.push(
                    ImportOp::WriteTask { id: t.id, goal_id: mapped_goal(key_views(gmap@), mode@, *t), index: k, upsert: false },
                ));
            }
        } else if str_eq(mode, "skip") {
            tmap.push((t.id.clone(), t.id.clone()));
            skipped = skipped + 1;
            proof {
                assert(key_views(tmap@) =~= key_views(old_tmap).push((t.id@, t.id)));
            }
        } else if str_eq(mode, "overwrite") {
            tmap.push((t.id.clone(), t.id.clone()));
            ops.push(ImportOp::WriteTask { id: t.id.clone(), goal_id: mg, index: k, upsert: true });
            imported = imported + 1;
            proof {
                assert(key_views(tmap@) =~= key_views(old_tmap).push((t.id@, t.id)));
                assert(ops@ =~= ops0 + s.5.push(
                    ImportOp::WriteTask { id: t.id, goal_id: mapped_goal(key_views(gmap@), mode@, *t), index: k, upsert: true },
                ));
            }
        } else {
            let nid = fresh[used].clone();
            push_text(&mut ids, nid.clone());
            tmap.push((t.id.clone(), nid.clone()));
            ops.push(ImportOp::WriteTask { id: nid, goal_id: mg, index: k, upsert: false });
            imported = imported + 1;
            used = used + 1;
            proof {
                assert(key_views(tmap@) =~= key_views(old_tmap).push((t.id@, fresh@[s.4])));
                assert(ops@ =~= ops0 + s.5.push(
                    ImportOp::WriteTask {
                        id: fresh@[s.4],
                        goal_id: mapped_goal(key_views(gmap@), mode@, *t),
                        index: k,
                        upsert: false,
                    },
                ));
            }
        }
        k = k + 1;
    }
    (ids, tmap, imported, skipped, used)
}

/// The id a backup task ends up under.
pub open spec fn mapped_task(tmap: Seq<(Seq<char>, String)>, id: String) -> String {
    match lookup(tmap, id@) {
        Some(x) => x,
        None => id,
    }
}

/// The state after the first `n` dependencies of an import: the pairs
/// stored, the numbers imported and skipped, the number of fresh ids used,
/// and the writes. A dependency whose tasks are not both stored is skipped;
/// an existing pair is skipped, given a fresh id, or overwritten, by mode.
pub open spec fn dep_phase(
    pairs0: Seq<(Seq<char>, Seq<char>)>,
    deps: Seq<TaskDependency>,
    tids: Seq<Seq<char>>,
    tmap: Seq<(Seq<char>, String)>,
    mode: Seq<char>,
    fresh: Seq<String>,
    used0: int,
    n: int,
) -> (Seq<(Seq<char>, Seq<char>)>, int, int, int, Seq<ImportOp>)
    decreases n,
{
    if n <= 0 {
        (pairs0, 0, 0, used0, Seq::empty())
    } else {
        let s = dep_phase(pairs0, deps, tids, tmap, mode, fresh, used0, n - 1);
        let d = deps[n - 1];
        let i = (n - 1) as usize;
        let mt = mapped_task(tmap, d.task_id);
        let md = mapped_task(tmap, d.depends_on_id);
        if !tids.contains(mt@) || !tids.contains(md@) {
            (s.0, s.1, s.2 + 1, s.3, s.4)
        } else if s.0.contains((mt@, md@)) && mode == "skip"@ {
            (s.0, s.1, s.2 + 1, s.3, s.4)
        } else if s.0.contains((mt@, md@)) && mode == "rename"@ {
            (
                s.0,
                s.1 + 1,
                s.2,
                s.3 + 1,
                s.4.push(ImportOp::WriteDependency { id: fresh[s.3], task_id: mt, depends_on_id: md, index: i }),
            )
        } else {
            (
                if s.0.contains((mt@, md@)) {
                    s.0
                } else {
                    s.0.push((mt@, md@))
                },
                s.1 + 1,
                s.2,
                s.3,
                s.4.push(ImportOp::WriteDependency { id: d.id, task_id: mt, depends_on_id: md, index: i }),
            )
        }
    }
}

fn contains_pair(v: &Vec<(String, String)>, a: &String, b: &String) -> (r: bool)
    ensures
        r == pair_views(v@).contains((a@, b@)),
{
    let mut k: usize = 0;
    while k < v.len()
        invariant
            k <= v@.len(),
            forall|q: int| 0 <= q < k ==> (#[trigger] pair_views(v@)[q]) != (a@, b@),
        decreases v@.len() - k,
    {
        if v[k].0 == *a && v[k].1 == *b {
            proof {
                assert(pair_views(v@)[k as int] == (a@, b@));
            }
            return true;
        }
        k = k + 1;
    }
    proof {
        if pair_views(v@).contains((a@, b@)) {
            let q = choose|q: int| 0 <= q < pair_views(v@).len() && pair_views(v@)[q] == (a@, b@);
            assert(pair_views(v@)[q] != (a@, b@));
        }
    }
    false
}

fn dep_writes(
    stored: &Vec<(String, String)>,
    deps: &Vec<TaskDependency>,
    tids: &Vec<String>,
    tmap: &Vec<(String, String)>,
    mode: &str,
    fresh: &Vec<String>,
    used0: usize,
    ops: &mut Vec<ImportOp>,
) -> (r: (usize, usize, usize))
    requires
        fresh@.len() >= used0 + deps@.len(),
        mode@ == "skip"@ || mode@ == "overwrite"@ || mode@ == "rename"@,
    ensures
        ({
            let s = dep_phase(
                pair_views(stored@),
                deps@,
                views(tids@),
                key_views(tmap@),
                mode@,
                fresh@,
                used0 as int,
                deps@.len() as int,
            );
            &&& r.0 == s.1
            &&& r.1 == s.2
            &&& r.2 == s.3
            &&& r.2 <= used0 + deps@.len()
            &&& final(ops)@ == old(ops)@ + s.4
        }),
{
    let ghost ops0 = ops@;
    let mut pairs: Vec<(String, String)> = Vec::new();
    let mut i: usize = 0;
    while i < stored.len()
        invariant
            i <= stored@.len(),
            pair_views(pairs@) == pair_views(stored@.subrange(0, i as int)),
        decreases stored@.len() - i,
    {
        let ghost before = pairs@;
        pairs.push((stored[i].0.clone(), stored[i].1.clone()));
        proof {
            assert(pair_views(pairs@) =~= pair_views(before).push((stored@[i as int].0@, stored@[i as int].1@)));
            assert(pair_views(stored@.subrange(0, i as int + 1)) =~= pair_views(stored@.subrange(0, i as int)).push(
                (stored@[i as int].0@, stored@[i as int].1@),
            ));
        }
        i = i + 1;
    }
    proof {
        assert(stored@.subrange(0, stored@.len() as int) =~= stored@);
    }
    let rename = str_eq(mode, "rename");
    let skip = str_eq(mode, "skip");
    let fl = fresh.len();
    let mut imported: usize = 0;
    let mut skipped: usize = 0;
    let mut used: usize = used0;
    let mut k: usize = 0;
    while k < deps.len()
        invariant
            k <= deps@.len(),
            fl == fresh@.len(),
            fresh@.len() >= used0 + deps@.len(),
            rename == (mode@ == "rename"@),
            skip == (mode@ == "skip"@),
            ({
                let s = dep_phase(
                    pair_views(stored@),
                    deps@,
                    views(tids@),
                    key_views(tmap@),
                    mode@,
                    fresh@,
                    used0 as int,
                    k as int,
                );
                &&& pair_views(pairs@) == s.0
                &&& imported == s.1
                &&& skipped == s.2
                &&& used == s.3
                &&& ops@ == ops0 + s.4
            }),
            imported + skipped == k,
            used0 <= used <= used0 + k,
        decreases deps@.len() - k,
    {
        let d = &deps[k];
        let ghost s = dep_phase(
            pair_views(stored@),
            deps@,
            views(tids@),
            key_views(tmap@),
            mode@,
            fresh@,
            used0 as int,
            k as int,
        );
        let mt = match lookup_key(tmap, &d.task_id) {
            Some(x) => x,
            None => d.task_id.clone(),
        };
        let md = match lookup_key(tmap, &d.depends_on_id) {
            Some(x) => x,
            None => d.depends_on_id.clone(),
        };
        assert(mt == mapped_task(key_views(tmap@), d.task_id));
        assert(md == mapped_task(key_views(tmap@), d.depends_on_id));
        if !contains_text(tids, &mt) || !contains_text(tids, &md) {
            skipped = skipped + 1;
        } else {
            let exists = contains_pair(&pairs, &mt, &md);
            if exists && skip {
                skipped = skipped + 1;
            } else if exists && rename {
                let nid = fresh[used].clone();
                ops.push(ImportOp::WriteDependency { id: nid, task_id: mt, depends_on_id: md, index: k });
                imported = imported + 1;
                used = used + 1;
                proof {
                    assert(ops@ =~= ops0 + s.4.push(
                        ImportOp::WriteDependency {
                            id: fresh@[s.3],
                            task_id: mapped_task(key_views(tmap@), d.task_id),
                            depends_on_id: mapped_task(key_views(tmap@), d.depends_on_id),
                            index: k,
                        },
                    ));
                }
            } else {
                if !exists {
                    let ghost before = pairs@;
                    pairs.push((mt.clone(), md.clone()));
                    proof {
                        assert(pair_views(pairs@) =~= pair_views(before).push((mt@, md@)));
                    }
                }
                ops.push(ImportOp::WriteDependency { id: d.id.clone(), task_id: mt, depends_on_id: md, index: k });
                imported = imported + 1;
                proof {
                    assert(ops@ =~= ops0 + s.4.push(
                        ImportOp::WriteDependency {
                            id: d.id,
                            task_id: mapped_task(key_views(tmap@), d.task_id),
                            depends_on_id: mapped_task(key_views(tmap@), d.depends_on_id),
                            index: k,
                        },
                    ));
                }
            }
        }
        k = k + 1;
    }
    (imported, skipped, used)
}

/// The state after the first `n` texts of an import: the text ids stored,
/// the number imported, the number of fresh ids used, and the writes.
/// Presets are not imported; an existing id is skipped, given a fresh id,
/// or overwritten, by mode.
pub open spec fn enc_phase(
    ids0: Seq<Seq<char>>,
    encs: Seq<Encouragement>,
    mode: Seq<char>,
    fresh: Seq<String>,
    used0: int,
    n: int,
) -> (Seq<Seq<char>>, int, int, Seq<ImportOp>)
    decreases n,
{
    if n <= 0 {
        (ids0, 0, used0, Seq::empty())
    } else {
        let s = enc_phase(ids0, encs, mode, fresh, used0, n - 1);
        let e = encs[n - 1];
        let i = (n - 1) as usize;
        if e.category@ == "preset"@ {
            s
        } else if s.0.contains(e.id@) && mode == "rename"@ {
            let nid = fresh[s.2];
            (s.0.push(nid@), s.1 + 1, s.2 + 1, s.3.push(ImportOp::WriteEncouragement { id: nid, index: i }))
        } else if s.0.contains(e.id@) && mode == "skip"@ {
            s
        } else {
            (s.0.push(e.id@), s.1 + 1, s.2, s.3.push(ImportOp::WriteEncouragement { id: e.id, index: i }))
        }
    }
}

fn enc_writes(
    stored: &Vec<String>,
    encs: &Vec<Encouragement>,
    mode: &str,
    fresh: &Vec<String>,
    used0: usize,
    ops: &mut Vec<ImportOp>,
) -> (r: (usize, usize))
    requires
        fresh@.len() >= used0 + encs@.len(),
        mode@ == "skip"@ || mode@ == "overwrite"@ || mode@ == "rename"@,
    ensures
        ({
            let s = enc_phase(views(stored@), encs@, mode@, fresh@, used0 as int, encs@.len() as int);
            &&& r.0 == s.1
            &&& r.1 == s.2
            &&& final(ops)@ == old(ops)@ + s.3
        }),
{
    let ghost ops0 = ops@;
    let mut ids: Vec<String> = Vec::new();
    let mut i: usize = 0;
    while i < stored.len()
        invariant
            i <= stored@.len(),
            views(ids@) == views(stored@.subrange(0, i as int)),
        decreases stored@.len() - i,
    {
        push_text(&mut ids, stored[i].clone());
        proof {
            assert(views(stored@.subrange(0, i as int + 1)) =~= views(stored@.subrange(0, i as int)).push(stored@[i as int]@));
        }
        i = i + 1;
    }
    proof {
        assert(stored@.subrange(0, stored@.len() as int) =~= stored@);
    }
    let rename = str_eq(mode, "rename");
    let skip = str_eq(mode, "skip");
    let fl = fresh.len();
    let mut imported: usize = 0;
    let mut used: usize = used0;
    let mut k: usize = 0;
    while k < encs.len()
        invariant
            k <= encs@.len(),
            fl == fresh@.len(),
            fresh@.len() >= used0 + encs@.len(),
            rename == (mode@ == "rename"@),
            skip == (mode@ == "skip"@),
            ({
                let s = enc_phase(views(stored@), encs@, mode@, fresh@, used0 as int, k as int);
                &&& views(ids@) == s.0
                &&& imported == s.1
                &&& used == s.2
                &&& ops@ == ops0 + s.3
            }),
            imported <= k,
            used0 <= used <= used0 + k,
        decreases encs@.len() - k,
    {
        let e = &encs[k];
        let ghost s = enc_phase(views(stored@), encs@, mode@, fresh@, used0 as int, k as int);
        if !str_eq(e.category.as_str(), "preset") {
            let exists = contains_text(&ids, &e.id);
            if exists && rename {
                let nid = fresh[used].clone();
                push_text(&mut ids, nid.clone());
                ops.push(ImportOp::WriteEncouragement { id: nid, index: k });
                imported = imported + 1;
                used = used + 1;
                proof {
                    assert(ops@ =~= ops0 + s.3.push(ImportOp::WriteEncouragement { id: fresh@[s.2], index: k }));
                }
            } else if !(exists && skip) {
                push_text(&mut ids, e.id.clone());
                ops.push(ImportOp::WriteEncouragement { id: e.id.clone(), index: k });
                imported = imported + 1;
                proof {
                    assert(ops@ =~= ops0 + s.3.push(ImportOp::WriteEncouragement { id: e.id, index: k }));
                }
            }
        }
        k = k + 1;
    }
    (imported, used)
}

/// The number of allowed settings among the first `n`, and their writes.
pub open spec fn setting_phase(settings: Seq<Setting>, n: int) -> (int, Seq<ImportOp>)
    decreases n,
{
    if n <= 0 {
        (0, Seq::empty())
    } else {
        let s = setting_phase(settings, n - 1);
        if import_key_allowed(settings[n - 1].key@) {
            (s.0 + 1, s.1.push(ImportOp::WriteSetting { index: (n - 1) as usize }))
        } else {
            s
        }
    }
}

fn setting_writes(settings: &Vec<Setting>, ops: &mut Vec<ImportOp>) -> (r: usize)
    ensures
        r == setting_phase(settings@, settings@.len() as int).0,
        final(ops)@ == old(ops)@ + setting_phase(settings@, settings@.len() as int).1,
{
    let ghost ops0 = ops@;
    let mut imported: usize = 0;
    let mut k: usize = 0;
    while k < settings.len()
        invariant
            k <= settings@.len(),
            imported <= k,
            imported == setting_phase(settings@, k as int).0,
            ops@ == ops0 + setting_phase(settings@, k as int).1,
        decreases settings@.len() - k,
    {
        if setting_key_allowed(settings[k].key.as_str()) {
            ops.push(ImportOp::WriteSetting { index: k });
            imported = imported + 1;
            proof {
                assert(ops@ =~= ops0 + setting_phase(settings@, k as int).1.push(ImportOp::WriteSetting { index: k }));
            }
        }
        k = k + 1;
    }
    imported
}

/// The backup's enumerated fields are all valid.
pub open spec fn payload_ok(data: ExportData) -> bool {
    &&& first_bad_task(data.tasks@, data.tasks@.len() as int) is None
    &&& first_bad_encouragement(data.encouragements@, data.encouragements@.len() as int) is None
}

/// The error of an invalid backup (see `validate_import_payload`).
pub open spec fn payload_error(data: ExportData, e: AppError) -> bool {
    &&& first_bad_task(data.tasks@, data.tasks@.len() as int) is Some ==> is_param_err(
        e,
        bad_task_text(data.tasks@[first_bad_task(data.tasks@, data.tasks@.len() as int)->0]),
    )
    &&& first_bad_task(data.tasks@, data.tasks@.len() as int) is None ==> is_param_err(
        e,
        bad_encouragement_text(
            data.encouragements@[first_bad_encouragement(data.encouragements@, data.encouragements@.len() as int)->0],
        ),
    )
}

/// `plan` is the import of `data` over the stored ids in `mode`, renamed
/// records taking the ids of `fresh` in turn: goals first, then tasks (in
/// the goals they end up in), dependencies (between the tasks as they end
/// up), texts and settings.
pub open spec fn import_plan_ok(stored: StoredIds, data: ExportData, mode: Seq<char>, fresh: Seq<String>, plan: ImportPlan) -> bool {
    let g = goal_phase(views(stored.goal_ids@), data.goals@, mode, fresh, data.goals@.len() as int);
    let t = task_phase(views(stored.task_ids@), data.tasks@, g.1, mode, fresh, g.4, data.tasks@.len() as int);
    let d = dep_phase(
        pair_views(stored.dependency_pairs@),
        data.task_dependencies@,
        t.0,
        t.1,
        mode,
        fresh,
        t.4,
        data.task_dependencies@.len() as int,
    );
    let e = enc_phase(views(stored.encouragement_ids@), data.encouragements@, mode, fresh, d.3, data.encouragements@.len() as int);
    let s = setting_phase(data.settings@, data.settings@.len() as int);
    &&& plan.ops@ == g.5 + t.5 + d.4 + e.3 + s.1
    &&& plan.result == (ImportResult {
        goals_imported: g.2 as usize,
        goals_skipped: g.3 as usize,
        stages_imported: 0,
        stages_skipped: 0,
        tasks_imported: t.2 as usize,
        tasks_skipped: t.3 as usize,
        dependencies_imported: d.1 as usize,
        dependencies_skipped: d.2 as usize,
        encouragements_imported: e.1 as usize,
        settings_imported: s.0 as usize,
    })
}

/// The number of fresh ids an import may need.
pub open spec fn fresh_needed(data: ExportData) -> nat {
    data.goals@.len() + data.tasks@.len() + data.task_dependencies@.len() + data.encouragements@.len()
}

/// Plans an import: checks the backup and the conflict mode, then decides
/// for each record whether it is written (under its own id or a fresh one)
/// or skipped, given what is already stored.
pub fn plan_import(stored: &StoredIds, data: &ExportData, mode: &str, fresh: &Vec<String>) -> (r: AppResult<ImportPlan>)
    requires
        fresh@.len() >= fresh_needed(*data),
    ensures
        !payload_ok(*data) ==> r is Err && payload_error(*data, r->Err_0),
        payload_ok(*data) && !is_conflict_mode(mode@) ==> r is Err && is_param_err(
            r->Err_0,
            "未知冲突模式: "@ + mode@ + "，应为 skip/overwrite/rename"@,
        ),
        payload_ok(*data) && is_conflict_mode(mode@) ==> r is Ok && import_plan_ok(*stored, *data, mode@, fresh@, r->Ok_0),
{
    match validate_import_payload(data) {
        Err(e) => {
            return Err(e);
        },
        Ok(()) => {},
    }
    if !(str_eq(mode, "skip") || str_eq(mode, "overwrite") || str_eq(mode, "rename")) {
        return Err(
            AppError::Param(String::from_str("未知冲突模式: ").concat(mode).concat("，应为 skip/overwrite/rename")),
        );
    }
    let mut ops: Vec<ImportOp> = Vec::new();
    let (_gids, gmap, gi, gs, used) = goal_writes(&stored.goal_ids, &data.goals, mode, fresh, &mut ops);
    let (tids, tmap, ti, ts, used) = task_writes(&stored.task_ids, &data.tasks, &gmap, mode, fresh, used, &mut ops);
    let (di, ds, used) = dep_writes(
        &stored.dependency_pairs,
        &data.task_dependencies,
        &tids,
        &tmap,
        mode,
        fresh,
        used,
        &mut ops,
    );
    let (ei, _used) = enc_writes(&stored.encouragement_ids, &data.encouragements, mode, fresh, used, &mut ops);
    let si = setting_writes(&data.settings, &mut ops);
    proof {
        assert(ops@ =~= Seq::<ImportOp>::empty() + goal_phase(
            views(stored.goal_ids@),
            data.goals@,
            mode@,
            fresh@,
            data.goals@.len() as int,
        ).5 + task_phase(
            views(stored.task_ids@),
            data.tasks@,
            key_views(gmap@),
            mode@,
            fresh@,
            goal_phase(views(stored.goal_ids@), data.goals@, mode@, fresh@, data.goals@.len() as int).4,
            data.tasks@.len() as int,
        ).5 + dep_phase(
            pair_views(stored.dependency_pairs@),
            data.task_dependencies@,
            views(tids@),
            key_views(tmap@),
            mode@,
            fresh@,
            task_phase(
                views(stored.task_ids@),
                data.tasks@,
                key_views(gmap@),
                mode@,
                fresh@,
                goal_phase(views(stored.goal_ids@), data.goals@, mode@, fresh@, data.goals@.len() as int).4,
                data.tasks@.len() as int,
            ).4,
            data.task_dependencies@.len() as int,
        ).4 + enc_phase(
            views(stored.encouragement_ids@),
            data.encouragements@,
            mode@,
            fresh@,
            dep_phase(
                pair_views(stored.dependency_pairs@),
                data.task_dependencies@,
                views(tids@),
                key_views(tmap@),
                mode@,
                fresh@,
                task_phase(
                    views(stored.task_ids@),
                    data.tasks@,
                    key_views(gmap@),
                    mode@,
                    fresh@,
                    goal_phase(views(stored.goal_ids@), data.goals@, mode@, fresh@, data.goals@.len() as int).4,
                    data.tasks@.len() as int,
                ).4,
                data.task_dependencies@.len() as int,
            ).3,
            data.encouragements@.len() as int,
        ).3 + setting_phase(data.settings@, data.settings@.len() as int).1);
    }
    Ok(
        ImportPlan {
            ops,
            result: ImportResult {
                goals_imported: gi,
                goals_skipped: gs,
                stages_imported: 0,
                stages_skipped: 0,
                tasks_imported: ti,
                tasks_skipped: ts,
                dependencies_imported: di,
                dependencies_skipped: ds,
                encouragements_imported: ei,
                settings_imported: si,
            },
        },
    )
}

/// Imports a backup over the stored ids in `mode` (see `plan_import`),
/// with fresh random ids for renamed records.
pub fn import_data(stored: &StoredIds, data: &ExportData, mode: &str) -> (r: AppResult<ImportPlan>)
    ensures
        !payload_ok(*data) ==> r is Err && payload_error(*data, r->Err_0),
        payload_ok(*data) && !is_conflict_mode(mode@) ==> r is Err && is_param_err(
            r->Err_0,
            "未知冲突模式: "@ + mode@ + "，应为 skip/overwrite/rename"@,
        ),
        payload_ok(*data) && is_conflict_mode(mode@) ==> r is Ok && exists|fresh: Seq<String>|
            fresh.len() >= fresh_needed(*data) && #[trigger] import_plan_ok(*stored, *data, mode@, fresh, r->Ok_0),
{
    let mut fresh: Vec<String> = Vec::new();
    let mut k: usize = 0;
    while k < data.goals.len()
        invariant
            k <= data.goals@.len(),
            fresh@.len() == k,
        decreases data.goals@.len() - k,
    {
        fresh.push(new_uuid());
        k = k + 1;
    }
    let mut k: usize = 0;
    while k < data.tasks.len()
        invariant
            k <= data.tasks@.len(),
            fresh@.len() == data.goals@.len() + k,
        decreases data.tasks@.len() - k,
    {
        fresh.push(new_uuid());
        k = k + 1;
    }
    let mut k: usize = 0;
    while k < data.task_dependencies.len()
        invariant
            k <= data.task_dependencies@.len(),
            fresh@.len() == data.goals@.len() + data.tasks@.len() + k,
        decreases data.task_dependencies@.len() - k,
    {
        fresh.push(new_uuid());
        k = k + 1;
    }
    let mut k: usize = 0;
    while k < data.encouragements.len()
        invariant
            k <= data.encouragements@.len(),
            fresh@.len() == data.goals@.len() + data.tasks@.len() + data.task_dependencies@.len() + k,
        decreases data.encouragements@.len() - k,
    {
        fresh.push(new_uuid());
        k = k + 1;
    }
    plan_import(stored, data, mode, &fresh)
}

/// For each component that `std::path::Path::components` finds in a text,
/// in order, whether it is a parent-directory reference (`..`).
pub uninterp spec fn spec_parent_flags(path: Seq<char>) -> Seq<bool>;

/// The text names a parent directory in one of its components.
pub open spec fn names_parent_dir(path: Seq<char>) -> bool {
    spec_parent_flags(path).contains(true)
}

/// The extension that `std::path::Path::extension` reads from a text, when
/// there is one and it is valid text.
pub uninterp spec fn spec_extension(path: Seq<char>) -> Option<Seq<char>>;

/// Calls `std::path::Path::components` and tells, one for one, which of the
/// components are `Component::ParentDir`. Claimed: the result is the named
/// list of flags.
#[verifier::external_body]
fn parent_flags(path: &str) -> (r: Vec<bool>)
    ensures
        r@ == spec_parent_flags(path@),
{
    std::path::Path::new(path).components().map(|c| matches!(c, std::path::Component::ParentDir)).collect()
}

/// Whether a text names a parent directory in one of its components.
fn has_parent_dir(path: &str) -> (r: bool)
    ensures
        r == names_parent_dir(path@),
{
    let flags = parent_flags(path);
    let mut i: usize = 0;
    while i < flags.len()
        invariant
            flags@ == spec_parent_flags(path@),
            i <= flags@.len(),
            forall|k: int| 0 <= k < i ==> !flags@[k],
        decreases flags@.len() - i,
    {
        if flags[i] {
            assert(flags@[i as int]);
            return true;
        }
        i = i + 1;
    }
    false
}

/// Calls `std::path::Path::extension` and `OsStr::to_str`. Claimed: the
/// result is the named one.
#[verifier::external_body]
fn extension_of(path: &str) -> (r: Option<String>)
    ensures
        match spec_extension(path@) {
            Some(e) => r is Some && r->0@ == e,
            None => r is None,
        },
{
    std::path::Path::new(path).extension().and_then(|e| e.to_str()).map(|e| e.to_string())
}

/// Whether a text holds the character `c`.
fn has_char(s: &str, c: char) -> (r: bool)
    ensures
        r == s@.contains(c),
{
    let n = s.unicode_len();
    let mut i: usize = 0;
    while i < n
        invariant
            n == s@.len(),
            i <= n,
            forall|k: int| 0 <= k < i ==> s@[k] != c,
        decreases n - i,
    {
        if s.get_char(i) == c {
            return true;
        }
        i = i + 1;
    }
    false
}

/// Whether `s` ends with `suffix`.
pub fn text_ends_with(s: &str, suffix: &str) -> (r: bool)
    ensures
        r == (s@.len() >= suffix@.len() && s@.subrange(s@.len() - suffix@.len(), s@.len() as int) == suffix@),
{
    let n = s.unicode_len();
    let m = suffix.unicode_len();
    if n < m {
        return false;
    }
    let tail = s.substring_char(n - m, n);
    str_eq(tail, suffix)
}

/// What the checks on the text of a file path give (see `validate_path_text`).
pub open spec fn path_text_outcome(path: Seq<char>, must_be_sqlite: bool, r: AppResult<()>) -> bool {
    &&& spec_trim(path).len() == 0 ==> r is Err && is_param_err(r->Err_0, "路径不能为空"@)
    &&& spec_trim(path).len() > 0 && path.contains('\0') ==> r is Err && is_param_err(
        r->Err_0,
        "路径包含非法字符（空字节）"@,
    )
    &&& spec_trim(path).len() > 0 && !path.contains('\0') && names_parent_dir(path) ==> r is Err
        && is_param_err(r->Err_0, "路径不能包含父目录引用 (..)"@)
    &&& spec_trim(path).len() > 0 && !path.contains('\0') && !names_parent_dir(path) ==> {
        let ext_ok = spec_extension(path) == Some("db"@) || spec_extension(path) == Some("sqlite"@);
        &&& must_be_sqlite && !ext_ok ==> r is Err && is_param_err(r->Err_0, "文件必须以 .db 或 .sqlite 结尾"@)
        &&& (!must_be_sqlite || ext_ok) ==> r is Ok
    }
}

/// The path text is safe: not blank, no null character, no parent reference.
pub open spec fn safe_path(path: Seq<char>) -> bool {
    spec_trim(path).len() > 0 && !path.contains('\0') && !names_parent_dir(path)
}

/// The checks on the text of a file path: not blank, no null character, no
/// parent-directory reference, and for a database file an extension `db` or
/// `sqlite`.
pub fn validate_path_text(path: &str, must_be_sqlite: bool) -> (r: AppResult<()>)
    ensures
        path_text_outcome(path@, must_be_sqlite, r),
{
    if trim_str(path).unicode_len() == 0 {
        return Err(AppError::Param(String::from_str("路径不能为空")));
    }
    if has_char(path, '\0') {
        return Err(AppError::Param(String::from_str("路径包含非法字符（空字节）")));
    }
    if has_parent_dir(path) {
        return Err(AppError::Param(String::from_str("路径不能包含父目录引用 (..)")));
    }
    if must_be_sqlite {
        let ok = match extension_of(path) {
            Some(e) => str_eq(e.as_str(), "db") || str_eq(e.as_str(), "sqlite"),
            None => false,
        };
        if !ok {
            return Err(AppError::Param(String::from_str("文件必须以 .db 或 .sqlite 结尾")));
        }
    }
    Ok(())
}

/// The error of a database file that does not exist.
pub fn missing_file_error(path: &str) -> (r: AppError)
    ensures
        is_param_err(r, "文件不存在: "@ + path@),
{
    AppError::Param(String::from_str("文件不存在: ").concat(path))
}

/// The first 16 bytes of every SQLite database file.
pub open spec fn sqlite_magic() -> Seq<u8> {
    seq![83u8, 81, 76, 105, 116, 101, 32, 102, 111, 114, 109, 97, 116, 32, 51, 0]
}

/// Checks the first 16 bytes of a database file.
pub fn check_sqlite_header(header: &Vec<u8>) -> (r: AppResult<()>)
    ensures
        header@ == sqlite_magic() ==> r is Ok,
        header@ != sqlite_magic() ==> r is Err && is_param_err(r->Err_0, "文件不是有效的 SQLite 数据库"@),
{
    let magic: Vec<u8> = vec![83u8, 81, 76, 105, 116, 101, 32, 102, 111, 114, 109, 97, 116, 32, 51, 0];
    assert(magic@ == sqlite_magic());
    let mut same = header.len() == magic.len();
    let mut i: usize = 0;
    while same && i < magic.len()
        invariant
            magic@ == sqlite_magic(),
            i <= magic@.len(),
            same ==> header@.len() == magic@.len() && forall|k: int| 0 <= k < i ==> header@[k] == magic@[k],
            !same ==> header@ != sqlite_magic(),
        decreases magic@.len() - i,
    {
        if header[i] != magic[i] {
            same = false;
        }
        i = i + 1;
    }
    if same {
        assert(header@ =~= magic@);
        Ok(())
    } else {
        Err(AppError::Param(String::from_str("文件不是有效的 SQLite 数据库")))
    }
}

/// Checks the target of a JSON export: a safe path ending in `.json`.
pub fn check_export_path(path: &str) -> (r: AppResult<()>)
    ensures
        !safe_path(path@) ==> path_text_outcome(path@, false, r),
        r is Ok <==> (safe_path(path@) && path@.len() >= 5 && path@.subrange(path@.len() - 5, path@.len() as int)
            == ".json"@),
        safe_path(path@) && r is Err ==> is_param_err(r->Err_0, "导出文件必须以 .json 结尾"@),
{
    match validate_path_text(path, false) {
        Err(e) => {
            return Err(e);
        },
        Ok(()) => {},
    }
    proof {
        reveal_strlit(".json");
    }
    if !text_ends_with(path, ".json") {
        return Err(AppError::Param(String::from_str("导出文件必须以 .json 结尾")));
    }
    Ok(())
}

/// The text with every single quote doubled.
pub open spec fn escape_quotes(s: Seq<char>) -> Seq<char>
    decreases s.len(),
{
    if s.len() == 0 {
        Seq::empty()
    } else {
        escape_quotes(s.drop_last()) + if s.last() == '\'' {
            seq!['\'', '\'']
        } else {
            seq![s.last()]
        }
    }
}

/// The statement that copies the database into `path`.
pub fn vacuum_into_sql(path: &str) -> (r: String)
    ensures
        r@ == "VACUUM INTO '"@ + escape_quotes(path@) + "'"@,
{
    let n = path.unicode_len();
    let mut out = String::new();
    let mut i: usize = 0;
    proof {
        assert(path@.subrange(0, 0) =~= Seq::<char>::empty());
    }
    while i < n
        invariant
            n == path@.len(),
            i <= n,
            out@ == escape_quotes(path@.subrange(0, i as int)),
        decreases n - i,
    {
        let c = path.get_char(i);
        proof {
            assert(path@.subrange(0, i as int + 1).drop_last() =~= path@.subrange(0, i as int));
            reveal_strlit("''");
        }
        if c == '\'' {
            out = out.concat("''");
        } else {
            out = out.concat(path.substring_char(i, i + 1));
        }
        i = i + 1;
    }
    proof {
        assert(path@.subrange(0, n as int) =~= path@);
    }
    String::from_str("VACUUM INTO '").concat(out.as_str()).concat("'")
}

/// Checks the target of a database copy: a safe path ending in `.db` or
/// `.sqlite`, of a file that does not exist yet (`exists`).
pub fn check_backup_path(path: &str, exists: bool) -> (r: AppResult<()>)
    ensures
        !safe_path(path@) ==> path_text_outcome(path@, false, r),
        ({
            let safe = safe_path(path@);
            let db = (path@.len() >= 3 && path@.subrange(path@.len() - 3, path@.len() as int) == ".db"@) || (path@.len()
                >= 7 && path@.subrange(path@.len() - 7, path@.len() as int) == ".sqlite"@);
            &&& r is Ok <==> safe && db && !exists
            &&& safe && !db ==> r is Err && is_param_err(r->Err_0, "备份文件必须以 .db 或 .sqlite 结尾"@)
            &&& safe && db && exists ==> r is Err && is_param_err(
                r->Err_0,
                "目标文件已存在，请更换路径或删除后重试: "@ + path@,
            )
        }),
{
    match validate_path_text(path, false) {
        Err(e) => {
            return Err(e);
        },
        Ok(()) => {},
    }
    proof {
        reveal_strlit(".db");
        reveal_strlit(".sqlite");
    }
    if !text_ends_with(path, ".db") && !text_ends_with(path, ".sqlite") {
        return Err(AppError::Param(String::from_str("备份文件必须以 .db 或 .sqlite 结尾")));
    }
    if exists {
        return Err(AppError::Param(String::from_str("目标文件已存在，请更换路径或删除后重试: ").concat(path)));
    }
    Ok(())
}

} // verus!
