//! Records of the planner and the checks on user input.
//!
//! Every quantity is held in hundredths of a unit (`i64`), every calendar
//! date that the logic computes with is a day number (see `util`).

use vstd::prelude::*;
use vstd::string::*;

use crate::util::{spec_parse_ymd, spec_trim, parse_ymd, str_eq, trim_str};

verus! {

/// Longest list accepted by a batch operation.
pub const MAX_BATCH_SIZE: usize = 500;

/// Largest import payload accepted, in bytes (50 MiB).
pub const MAX_IMPORT_JSON_BYTES: usize = 52428800;

/// Hundredths in one unit of quantity.
pub const QTY_SCALE: i64 = 100;

// ------------------------------------------------------------------
// Input checks
// ------------------------------------------------------------------

/// A name is acceptable when it is not blank and has at most 200 characters.
pub fn validate_name(s: &str) -> (r: Result<(), &'static str>)
    ensures
        spec_trim(s@).len() == 0 ==> r is Err && r->Err_0@ == "名称不能为空白"@,
        spec_trim(s@).len() != 0 && s@.len() > 200 ==> r is Err && r->Err_0@ == "名称长度不能超过 200 字"@,
        spec_trim(s@).len() != 0 && s@.len() <= 200 ==> r is Ok,
{
    if trim_str(s).unicode_len() == 0 {
        Err("名称不能为空白")
    } else if s.unicode_len() > 200 {
        Err("名称长度不能超过 200 字")
    } else {
        Ok(())
    }
}

/// A date must be written `yyyy-MM-dd`.
pub fn validate_date_format(s: &str) -> (r: Result<(), &'static str>)
    ensures
        r is Ok <==> spec_parse_ymd(s@) is Ok,
        r is Err ==> r->Err_0@ == "日期格式必须为 yyyy-MM-dd"@,
{
    match parse_ymd(s) {
        Ok(_) => Ok(()),
        Err(_) => Err("日期格式必须为 yyyy-MM-dd"),
    }
}

/// Like `validate_date_format`, but the empty text (meaning "clear the date")
/// is accepted too.
pub fn validate_date_optional_clear(s: &str) -> (r: Result<(), &'static str>)
    ensures
        r is Ok <==> (s@.len() == 0 || spec_parse_ymd(s@) is Ok),
        r is Err ==> r->Err_0@ == "日期格式必须为 yyyy-MM-dd"@,
{
    if s.is_empty() {
        Ok(())
    } else {
        validate_date_format(s)
    }
}

/// A quantity must not be negative.
pub fn validate_qty(v: i64) -> (r: Result<(), &'static str>)
    ensures
        r is Ok <==> v >= 0,
        r is Err ==> r->Err_0@ == "数量必须为非负有限数"@,
{
    if v >= 0 {
        Ok(())
    } else {
        Err("数量必须为非负有限数")
    }
}

/// An encouragement text is not blank and has at most 100 characters.
pub fn validate_encouragement_text(s: &str) -> (r: Result<(), &'static str>)
    ensures
        spec_trim(s@).len() == 0 ==> r is Err && r->Err_0@ == "鼓励语内容不能为空"@,
        spec_trim(s@).len() != 0 && s@.len() > 100 ==> r is Err && r->Err_0@ == "鼓励语长度不能超过 100 字"@,
        spec_trim(s@).len() != 0 && s@.len() <= 100 ==> r is Ok,
{
    if trim_str(s).unicode_len() == 0 {
        Err("鼓励语内容不能为空")
    } else if s.unicode_len() > 100 {
        Err("鼓励语长度不能超过 100 字")
    } else {
        Ok(())
    }
}

/// The levels a user may give an encouragement.
pub open spec fn is_user_level(s: Seq<char>) -> bool {
    ||| s == "normal"@
    ||| s == "advanced"@
    ||| s == "highlight"@
    ||| s == "celebration"@
    ||| s == "setback"@
}

/// Whether a text is one of the levels a user may give an encouragement.
pub fn is_user_level_str(s: &str) -> (r: bool)
    ensures
        r == is_user_level(s@),
{
    str_eq(s, "normal") || str_eq(s, "advanced") || str_eq(s, "highlight") || str_eq(s, "celebration")
        || str_eq(s, "setback")
}

/// A user-given level must be one of the user levels.
pub fn validate_user_level(s: &str) -> (r: Result<(), &'static str>)
    ensures
        r is Ok <==> is_user_level(s@),
        r is Err ==> r->Err_0@ == "等级必须为 normal/advanced/highlight/celebration/setback"@,
{
    if is_user_level_str(s) {
        Ok(())
    } else {
        Err("等级必须为 normal/advanced/highlight/celebration/setback")
    }
}

/// A repeat frequency is `daily`, `weekly` or `monthly`.
pub fn validate_frequency(s: &str) -> (r: Result<(), &'static str>)
    ensures
        r is Ok <==> (s@ == "daily"@ || s@ == "weekly"@ || s@ == "monthly"@),
        r is Err ==> r->Err_0@ == "频率必须为 daily/weekly/monthly"@,
{
    if str_eq(s, "daily") || str_eq(s, "weekly") || str_eq(s, "monthly") {
        Ok(())
    } else {
        Err("频率必须为 daily/weekly/monthly")
    }
}

/// A split strategy is `by_deadline`, `by_capacity` or `by_date_range`.
pub fn validate_split_strategy(s: &str) -> (r: Result<(), &'static str>)
    ensures
        r is Ok <==> (s@ == "by_deadline"@ || s@ == "by_capacity"@ || s@ == "by_date_range"@),
        r is Err ==> r->Err_0@ == "拆解策略必须为 by_deadline/by_capacity/by_date_range"@,
{
    if str_eq(s, "by_deadline") || str_eq(s, "by_capacity") || str_eq(s, "by_date_range") {
        Ok(())
    } else {
        Err("拆解策略必须为 by_deadline/by_capacity/by_date_range")
    }
}

/// Weekdays are numbered 0 (Sunday) to 6; at most seven are given.
pub fn validate_weekdays(v: &Vec<u8>) -> (r: Result<(), &'static str>)
    ensures
        r is Ok <==> (v@.len() <= 7 && forall|i: int| 0 <= i < v@.len() ==> v@[i] <= 6),
        r is Err ==> r->Err_0@ == "weekdays 取值需在 0~6 且最多 7 个"@,
{
    if v.len() > 7 {
        return Err("weekdays 取值需在 0~6 且最多 7 个");
    }
    let mut i: usize = 0;
    while i < v.len()
        invariant
            i <= v@.len(),
            forall|j: int| 0 <= j < i ==> v@[j] <= 6,
        decreases v@.len() - i,
    {
        if v[i] > 6 {
            return Err("weekdays 取值需在 0~6 且最多 7 个");
        }
        i = i + 1;
    }
    Ok(())
}

/// Days of the month are 1 to 31; at most 31 are given.
pub fn validate_month_days(v: &Vec<u8>) -> (r: Result<(), &'static str>)
    ensures
        r is Ok <==> (v@.len() <= 31 && forall|i: int| 0 <= i < v@.len() ==> 1 <= #[trigger] v@[i] <= 31),
        r is Err ==> r->Err_0@ == "month_days 取值需在 1~31"@,
{
    if v.len() > 31 {
        return Err("month_days 取值需在 1~31");
    }
    let mut i: usize = 0;
    while i < v.len()
        invariant
            i <= v@.len(),
            forall|j: int| 0 <= j < i ==> 1 <= #[trigger] v@[j] <= 31,
        decreases v@.len() - i,
    {
        if v[i] < 1 || v[i] > 31 {
            return Err("month_days 取值需在 1~31");
        }
        i = i + 1;
    }
    Ok(())
}

/// An import payload may hold at most 50 MiB of text.
pub fn validate_import_size(s: &str) -> (r: Result<(), &'static str>)
    ensures
        r is Ok <==> s.len() <= MAX_IMPORT_JSON_BYTES,
        r is Err ==> r->Err_0@ == "导入数据超过 50MB 上限"@,
{
    if s.len() > MAX_IMPORT_JSON_BYTES {
        Err("导入数据超过 50MB 上限")
    } else {
        Ok(())
    }
}

/// The conflict modes of an import.
pub open spec fn is_conflict_mode(s: Seq<char>) -> bool {
    s == "skip"@ || s == "overwrite"@ || s == "rename"@
}

/// An import conflict mode is `skip`, `overwrite` or `rename`.
pub fn validate_conflict_mode(s: &str) -> (r: Result<(), &'static str>)
    ensures
        r is Ok <==> is_conflict_mode(s@),
        r is Err ==> r->Err_0@ == "冲突模式必须为 skip/overwrite/rename"@,
{
    if str_eq(s, "skip") || str_eq(s, "overwrite") || str_eq(s, "rename") {
        Ok(())
    } else {
        Err("冲突模式必须为 skip/overwrite/rename")
    }
}

// ------------------------------------------------------------------
// Task status
// ------------------------------------------------------------------

/// The four states of a task.
#[derive(Debug, Clone, Copy, PartialEq, Eq, Structural)]
pub enum TaskStatus {
    Pending,
    Partial,
    Done,
    Skipped,
}

impl TaskStatus {
    /// The stored text of a status.
    pub open spec fn spec_text(self) -> Seq<char> {
        match self {
            TaskStatus::Pending => "pending"@,
            TaskStatus::Partial => "partial"@,
            TaskStatus::Done => "done"@,
            TaskStatus::Skipped => "skipped"@,
        }
    }

    /// The stored text of a status.
    pub fn as_str(&self) -> (r: &'static str)
        ensures
            r@ == self.spec_text(),
    {
        match self {
            TaskStatus::Pending => "pending",
            TaskStatus::Partial => "partial",
            TaskStatus::Done => "done",
            TaskStatus::Skipped => "skipped",
        }
    }

    /// The status whose stored text is `s`, if any.
    pub fn from_str(s: &str) -> (r: Option<Self>)
        ensures
            r is Some ==> r->0.spec_text() == s@,
            r is None ==> (s@ != "pending"@ && s@ != "partial"@ && s@ != "done"@ && s@ != "skipped"@),
    {
        if str_eq(s, "pending") {
            Some(TaskStatus::Pending)
        } else if str_eq(s, "partial") {
            Some(TaskStatus::Partial)
        } else if str_eq(s, "done") {
            Some(TaskStatus::Done)
        } else if str_eq(s, "skipped") {
            Some(TaskStatus::Skipped)
        } else {
            None
        }
    }
}

} // verus!

verus! {

// ------------------------------------------------------------------
// Goals and tasks
// ------------------------------------------------------------------

/// A goal: a node of the goal tree (no parent means a top-level goal).
#[derive(Debug)]
pub struct Goal {
    pub id: String,
    pub name: String,
    /// The parent goal; `None` for a top-level goal.
    pub parent_id: Option<String>,
    pub path: String,
    /// Deadline, `yyyy-MM-dd`.
    pub deadline: Option<String>,
    /// Total amount, in hundredths.
    pub total_qty: i64,
    pub unit: String,
    pub sort_order: i64,
    pub created_at: String,
    /// Amount that can be done each day, in hundredths.
    pub daily_capacity: Option<i64>,
}

impl Goal {
    /// A copy of the goal.
    pub fn copy(&self) -> (r: Goal)
        ensures
            r == *self,
    {
        Goal {
            id: self.id.clone(),
            name: self.name.clone(),
            parent_id: crate::util::copy_opt_string(&self.parent_id),
            path: self.path.clone(),
            deadline: crate::util::copy_opt_string(&self.deadline),
            total_qty: self.total_qty,
            unit: self.unit.clone(),
            sort_order: self.sort_order,
            created_at: self.created_at.clone(),
            daily_capacity: self.daily_capacity,
        }
    }
}

/// A task: one unit of planned work on one day.
#[derive(Debug)]
pub struct Task {
    pub id: String,
    pub goal_id: String,
    pub stage_id: Option<String>,
    pub parent_id: Option<String>,
    pub path: String,
    pub name: String,
    /// Planned day, `yyyy-MM-dd`.
    pub plan_date: Option<String>,
    /// The day on which the task was found overdue, `yyyy-MM-dd`.
    pub overdue_date: Option<String>,
    /// Planned amount, in hundredths.
    pub plan_qty: i64,
    /// Amount done, in hundredths.
    pub actual_qty: i64,
    pub unit: String,
    /// `pending`, `partial`, `done` or `skipped`.
    pub status: String,
    /// 1 when the planned amount was set by hand (kept by re-planning).
    pub is_manual: i64,
    /// `auto` or `manual`.
    pub source: String,
    pub sort_order: i64,
    pub created_at: String,
    /// Estimated effort, in hundredths of an hour.
    pub estimated_hours: Option<i64>,
}

impl Task {
    /// A copy of the task.
    pub fn copy(&self) -> (r: Task)
        ensures
            r == *self,
    {
        Task {
            id: self.id.clone(),
            goal_id: self.goal_id.clone(),
            stage_id: crate::util::copy_opt_string(&self.stage_id),
            parent_id: crate::util::copy_opt_string(&self.parent_id),
            path: self.path.clone(),
            name: self.name.clone(),
            plan_date: crate::util::copy_opt_string(&self.plan_date),
            overdue_date: crate::util::copy_opt_string(&self.overdue_date),
            plan_qty: self.plan_qty,
            actual_qty: self.actual_qty,
            unit: self.unit.clone(),
            status: self.status.clone(),
            is_manual: self.is_manual,
            source: self.source.clone(),
            sort_order: self.sort_order,
            created_at: self.created_at.clone(),
            estimated_hours: self.estimated_hours,
        }
    }
}

/// Input of goal creation.
#[derive(Debug)]
pub struct CreateGoalInput {
    pub name: String,
    pub parent_id: Option<String>,
    pub deadline: Option<String>,
    pub total_qty: Option<i64>,
    pub unit: Option<String>,
    pub daily_capacity: Option<i64>,
}

/// Input of a goal update; absent fields stay as they are.
#[derive(Debug)]
pub struct UpdateGoalInput {
    pub id: String,
    pub name: Option<String>,
    pub deadline: Option<String>,
    pub total_qty: Option<i64>,
    pub unit: Option<String>,
    pub daily_capacity: Option<i64>,
}

/// Input of a repeated split (one task per matching day, or a single task).
#[derive(Debug)]
pub struct RepeatSplitInput {
    pub goal_id: String,
    pub name: String,
    /// First day, `yyyy-MM-dd`.
    pub start_date: String,
    /// Last day, `yyyy-MM-dd`; absent or equal to the first day for a single task.
    pub end_date: Option<String>,
    /// Amount of each task, in hundredths (default one unit).
    pub plan_qty: Option<i64>,
    pub unit: Option<String>,
    /// `daily` (default), `weekly` or `monthly`.
    pub frequency: Option<String>,
    /// Weekdays (0 = Sunday) for `weekly`.
    pub weekdays: Option<Vec<u8>>,
    /// Days of the month (1 to 31) for `monthly`.
    pub month_days: Option<Vec<u8>>,
}

/// Input of the combined split; the optional fields override the goal's own.
#[derive(Debug)]
pub struct SmartSplitInput {
    pub goal_id: String,
    /// `by_deadline`, `by_capacity` or `by_date_range`.
    pub strategy: String,
    pub total_qty: Option<i64>,
    pub deadline: Option<String>,
    pub daily_capacity: Option<i64>,
    pub start_date: Option<String>,
    pub end_date: Option<String>,
    pub per_day_qty: Option<i64>,
}

/// Input of a manual task creation.
#[derive(Debug)]
pub struct CreateTaskInput {
    pub goal_id: String,
    pub stage_id: Option<String>,
    pub name: String,
    pub plan_date: Option<String>,
    pub plan_qty: Option<i64>,
    pub unit: Option<String>,
}

/// Input of completing (or back-filling) a task.
#[derive(Debug)]
pub struct CompleteTaskInput {
    pub task_id: String,
    pub actual_qty: i64,
}

/// Input of a task update; absent fields stay as they are; an empty plan
/// date clears the date.
#[derive(Debug)]
pub struct UpdateTaskInput {
    pub task_id: String,
    pub name: Option<String>,
    pub plan_date: Option<String>,
    pub plan_qty: Option<i64>,
}

/// Progress of a goal and all its descendants.
#[derive(Debug)]
pub struct ProgressInfo {
    pub id: String,
    pub name: String,
    /// Sum of planned amounts, in hundredths.
    pub total_plan: i64,
    /// Sum of amounts done, in hundredths.
    pub total_actual: i64,
    /// Whether every task below the goal is done.
    pub is_completed: bool,
}

/// A node of the goal tree with its sub-goals, its tasks and its progress.
#[derive(Debug)]
pub struct GoalTreeNode {
    pub goal: Goal,
    pub sub_goals: Vec<GoalTreeNode>,
    pub tasks: Vec<Task>,
    /// Sum of planned amounts below the goal, in hundredths.
    pub total_plan: i64,
    /// Sum of amounts done below the goal, in hundredths.
    pub total_actual: i64,
    pub is_completed: bool,
}

/// One line of a re-planning preview.
#[derive(Debug)]
pub struct ReplanPreviewItem {
    pub task_id: String,
    pub name: String,
    pub plan_date: String,
    pub old_plan_qty: i64,
    pub new_plan_qty: i64,
    /// Whether the amount was kept (set by hand).
    pub retained: bool,
}

/// A re-planning preview.
#[derive(Debug)]
pub struct ReplanPreview {
    pub goal_id: String,
    pub goal_name: String,
    pub remaining_days: i64,
    /// Amount left to distribute, in hundredths.
    pub remaining_qty: i64,
    /// Amount of each re-planned task before the remainder, in hundredths.
    pub daily_base: i64,
    /// Number of re-planned tasks that get one extra unit.
    pub remainder: i64,
    pub items: Vec<ReplanPreviewItem>,
}

/// Outcome of a re-planning.
#[derive(Debug)]
pub struct ReplanResult {
    pub goal_id: String,
    pub updated_count: usize,
    pub retained_count: usize,
    pub tasks: Vec<Task>,
}

/// Input of moving a task to another goal, stage or position.
#[derive(Debug)]
pub struct MoveTaskInput {
    pub task_id: String,
    pub goal_id: Option<String>,
    pub stage_id: Option<String>,
    pub before_task_id: Option<String>,
}

/// Input of moving a goal under another parent or position.
#[derive(Debug)]
pub struct MoveGoalInput {
    pub goal_id: String,
    pub new_parent_id: Option<String>,
    pub before_goal_id: Option<String>,
}

/// A task of today's or the overdue list, with its goal's name.
#[derive(Debug)]
pub struct TodayTask {
    pub id: String,
    pub goal_id: String,
    pub goal_name: String,
    pub stage_id: Option<String>,
    pub name: String,
    pub plan_date: Option<String>,
    pub overdue_date: Option<String>,
    pub plan_qty: i64,
    pub actual_qty: i64,
    pub unit: String,
    pub status: String,
    pub source: String,
    pub is_blocked: bool,
    pub blocked_by_names: Option<String>,
}

/// A task of the calendar view.
#[derive(Debug)]
pub struct CalendarTask {
    pub id: String,
    pub goal_id: String,
    pub goal_name: String,
    pub stage_id: Option<String>,
    pub name: String,
    pub plan_date: Option<String>,
    pub plan_qty: i64,
    pub actual_qty: i64,
    pub unit: String,
    pub status: String,
    pub source: String,
    pub is_overdue: bool,
    pub is_blocked: bool,
    pub blocked_by_names: Option<String>,
}

/// A stage (kept only to read old backups).
#[derive(Debug)]
pub struct Stage {
    pub id: String,
    pub goal_id: String,
    pub name: String,
    pub parent_id: Option<String>,
    pub path: String,
    pub sort_order: i64,
    pub created_at: String,
}

/// Input of stage creation (kept only to read old backups).
#[derive(Debug)]
pub struct CreateStageInput {
    pub goal_id: String,
    pub name: String,
    pub parent_id: Option<String>,
}

/// Input of a stage update (kept only to read old backups).
#[derive(Debug)]
pub struct UpdateStageInput {
    pub id: String,
    pub name: Option<String>,
    pub sort_order: Option<i64>,
}

/// Input of a stage deletion (kept only to read old backups).
#[derive(Debug)]
pub struct DeleteStageInput {
    pub id: String,
    /// `detach` or `cascade`.
    pub mode: String,
}

/// A dependency: `task_id` can be done only once `depends_on_id` is.
#[derive(Debug)]
pub struct TaskDependency {
    pub id: String,
    pub task_id: String,
    pub depends_on_id: String,
    pub created_at: String,
}

/// Outcome of deleting one task.
#[derive(Debug)]
pub struct DeleteTaskResult {
    pub task_id: String,
    pub goal_id: String,
}

/// Outcome of deleting several tasks.
#[derive(Debug)]
pub struct DeleteTasksBatchResult {
    pub deleted_count: i64,
    /// The goals that lost tasks, each once.
    pub affected_goal_ids: Vec<String>,
}

/// Input of adding a dependency.
#[derive(Debug)]
pub struct SetTaskDependencyInput {
    pub task_id: String,
    pub depends_on_id: String,
}

// ------------------------------------------------------------------
// Encouragements and settings
// ------------------------------------------------------------------

/// An encouragement text.
#[derive(Debug)]
pub struct Encouragement {
    pub id: String,
    pub text: String,
    /// `preset` or `custom`.
    pub category: String,
    /// `normal`, `advanced`, `highlight`, `celebration`, `setback` or `longest_streak`.
    pub level: String,
    pub created_at: String,
    pub context_tags: Option<String>,
    pub hidden: Option<i32>,
    pub sort_order: Option<i64>,
    /// `warm`, `professional` or `minimal`.
    pub style: String,
}

/// Input of adding an encouragement.
#[derive(Debug)]
pub struct AddEncouragementInput {
    pub text: String,
    pub level: Option<String>,
}

/// A favourite mark on an encouragement.
#[derive(Debug)]
pub struct EncouragementFavorite {
    pub id: String,
    pub encouragement_id: String,
    pub favorited_at: String,
}

/// One showing of an encouragement.
#[derive(Debug)]
pub struct EncouragementShowLog {
    pub id: String,
    pub encouragement_id: String,
    pub shown_at: String,
    pub trigger_source: String,
    pub closed_at: Option<String>,
    pub view_duration: Option<i64>,
}

/// Input of an encouragement update.
#[derive(Debug)]
pub struct UpdateEncouragementInput {
    pub id: String,
    pub text: Option<String>,
    pub level: Option<String>,
}

/// Input of an update of an encouragement's context tags.
#[derive(Debug)]
pub struct UpdateEncouragementContextInput {
    pub id: String,
    pub context_tags: String,
}

/// A key/value setting.
#[derive(Debug)]
pub struct Setting {
    pub key: String,
    pub value: String,
}

/// Input of setting a value.
#[derive(Debug)]
pub struct SetSettingInput {
    pub key: String,
    pub value: String,
}

/// The event that shows an encouragement.
#[derive(Debug, Clone, Copy, PartialEq, Eq, Structural)]
pub enum EncouragementTriggerSource {
    CompleteFirst,
    CompleteNormal,
    CompleteCelebration,
    DashboardBanner,
    StreakBreak,
    ProgressLag,
    GoalCreated,
    GoalMidway,
    TaskSkipped,
    StreakRecovery,
}

impl EncouragementTriggerSource {
    /// The stored text of a trigger source.
    pub open spec fn spec_text(self) -> Seq<char> {
        match self {
            EncouragementTriggerSource::CompleteFirst => "complete_first"@,
            EncouragementTriggerSource::CompleteNormal => "complete_normal"@,
            EncouragementTriggerSource::CompleteCelebration => "complete_celebration"@,
            EncouragementTriggerSource::DashboardBanner => "dashboard_banner"@,
            EncouragementTriggerSource::StreakBreak => "streak_break"@,
            EncouragementTriggerSource::ProgressLag => "progress_lag"@,
            EncouragementTriggerSource::GoalCreated => "goal_created"@,
            EncouragementTriggerSource::GoalMidway => "goal_midway"@,
            EncouragementTriggerSource::TaskSkipped => "task_skipped"@,
            EncouragementTriggerSource::StreakRecovery => "streak_recovery"@,
        }
    }

    /// The stored text of a trigger source.
    pub fn as_ref(&self) -> (r: &'static str)
        ensures
            r@ == self.spec_text(),
    {
        match self {
            EncouragementTriggerSource::CompleteFirst => "complete_first",
            EncouragementTriggerSource::CompleteNormal => "complete_normal",
            EncouragementTriggerSource::CompleteCelebration => "complete_celebration",
            EncouragementTriggerSource::DashboardBanner => "dashboard_banner",
            EncouragementTriggerSource::StreakBreak => "streak_break",
            EncouragementTriggerSource::ProgressLag => "progress_lag",
            EncouragementTriggerSource::GoalCreated => "goal_created",
            EncouragementTriggerSource::GoalMidway => "goal_midway",
            EncouragementTriggerSource::TaskSkipped => "task_skipped",
            EncouragementTriggerSource::StreakRecovery => "streak_recovery",
        }
    }
}

/// Preferences for encouragements.
#[derive(Debug)]
pub struct EncouragementSettings {
    pub enabled: bool,
    /// `aggressive`, `normal` or `sparse`.
    pub frequency: String,
    /// `warm`, `professional` or `minimal`.
    pub style: String,
    pub celebration_animation: bool,
    pub emoji_enabled: bool,
}

/// Input of a preference update; absent fields stay as they are.
#[derive(Debug)]
pub struct UpdateEncouragementSettingsInput {
    pub enabled: Option<bool>,
    pub frequency: Option<String>,
    pub style: Option<String>,
    pub celebration_animation: Option<bool>,
    pub emoji_enabled: Option<bool>,
}

/// Streak statistics.
#[derive(Debug)]
pub struct StreakInfo {
    pub current_streak: i64,
    pub longest_streak: i64,
    pub completed_today: bool,
    /// `none`, `expert` or `master`.
    pub milestone: String,
}

/// A goal that is overdue or predicted to miss its deadline.
#[derive(Debug)]
pub struct LaggingGoal {
    pub id: String,
    pub name: String,
    pub deadline: String,
    pub predicted_end_date: String,
    pub days_remaining: i32,
}

/// Setbacks detected today.
#[derive(Debug)]
pub struct SetbackSituation {
    pub has_streak_break: bool,
    pub streak_break_prev: i32,
    pub has_progress_lag: bool,
    pub lagging_goals: Vec<LaggingGoal>,
}

/// Figures shown when every goal is done.
#[derive(Debug)]
pub struct CelebrationAchievement {
    pub total_goals: i32,
    pub total_tasks: i32,
    pub completed_tasks: i32,
    pub days_elapsed: i32,
    pub final_streak: i32,
    pub final_longest_streak: i32,
}

/// The completion forecast of a goal, as far as setback detection reads it.
#[derive(Debug)]
pub struct CompletionPrediction {
    pub goal_id: String,
    pub goal_name: String,
    pub deadline: Option<String>,
    pub predicted_date: Option<String>,
    pub days_to_deadline: Option<i64>,
}

/// A full backup.
#[derive(Debug)]
pub struct ExportData {
    pub version: String,
    pub exported_at: String,
    pub goals: Vec<Goal>,
    pub stages: Vec<Stage>,
    pub tasks: Vec<Task>,
    pub task_dependencies: Vec<TaskDependency>,
    pub encouragements: Vec<Encouragement>,
    pub settings: Vec<Setting>,
}

/// Input of an import.
#[derive(Debug)]
pub struct ImportInput {
    pub data: String,
    /// `skip`, `overwrite` or `rename`.
    pub conflict_mode: String,
}

/// Counts of an import.
#[derive(Debug, PartialEq, Eq, Structural)]
pub struct ImportResult {
    pub goals_imported: usize,
    pub goals_skipped: usize,
    pub stages_imported: usize,
    pub stages_skipped: usize,
    pub tasks_imported: usize,
    pub tasks_skipped: usize,
    pub dependencies_imported: usize,
    pub dependencies_skipped: usize,
    pub encouragements_imported: usize,
    pub settings_imported: usize,
}

/// How close the current streak is to the longest one.
#[derive(Debug)]
pub struct StreakMilestone {
    /// `接近历史`, `追平历史` or `超越历史`.
    pub milestone_type: String,
    pub current_streak: i64,
    pub longest_streak: i64,
}

/// A new position of an encouragement.
#[derive(Debug)]
pub struct EncouragementOrderItem {
    pub id: String,
    pub sort_order: i64,
}

/// Showing statistics of an encouragement.
#[derive(Debug)]
pub struct EncouragementStats {
    pub total_shows: i64,
    /// Mean viewing time, in hundredths of a second.
    pub avg_duration: i64,
    pub last_shown: Option<String>,
}

} // verus!
