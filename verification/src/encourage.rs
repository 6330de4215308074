//! Encouragements: which level of text to show for a streak, the weighted
//! draw among candidate texts, the rules of editing texts, and the detection
//! of setbacks and streak milestones.

use chrono::Timelike;
use vstd::prelude::*;
use vstd::string::*;

use crate::error::{is_business_err, is_not_found_err, is_param_err, not_found, not_found_text, AppError, AppResult};
use crate::models::{
    is_user_level, CompletionPrediction, Encouragement, Goal, LaggingGoal, SetbackSituation, StreakInfo,
    StreakMilestone, Task, UpdateEncouragementInput, MAX_BATCH_SIZE,
};
use crate::progress::{actual_size, calc_all_goals_progress, goal_completed, goal_ids_distinct, plan_size};
use crate::textorder::text_lt;
use crate::util::{
    format_ymd, parse_ymd, random_below, spec_format_ymd, spec_parse_ymd, spec_trim, str_eq, trim_str, valid_day,
};

verus! {

/// Checks an optional level: absent means `normal`; any other text than the
/// five user levels is refused.
pub fn validate_level(level: &Option<String>) -> (r: AppResult<String>)
    ensures
        level is None ==> r is Ok && r->Ok_0@ == "normal"@,
        level is Some && is_user_level(level->0@) ==> r is Ok && r->Ok_0@ == level->0@,
        level is Some && !is_user_level(level->0@) ==> r is Err && is_param_err(
            r->Err_0,
            "等级无效，应为 normal/advanced/highlight/celebration/setback"@,
        ),
{
    match level {
        None => Ok(String::from_str("normal")),
        Some(l) => {
            if crate::models::is_user_level_str(l.as_str()) {
                Ok(l.clone())
            } else {
                Err(AppError::Param(String::from_str("等级无效，应为 normal/advanced/highlight/celebration/setback")))
            }
        },
    }
}

/// The part of the day an hour falls in.
pub open spec fn period_text(hour: int) -> Seq<char> {
    if 6 <= hour <= 11 {
        "morning"@
    } else if 12 <= hour <= 17 {
        "afternoon"@
    } else if 18 <= hour <= 23 {
        "evening"@
    } else {
        "night"@
    }
}

/// The part of the day of `hour`: morning 6-11, afternoon 12-17, evening
/// 18-23, night otherwise.
pub fn time_period_of(hour: u32) -> (r: &'static str)
    ensures
        r@ == period_text(hour as int),
{
    proof {
        reveal_strlit("morning");
        reveal_strlit("afternoon");
        reveal_strlit("evening");
        reveal_strlit("night");
    }
    if 6 <= hour && hour <= 11 {
        "morning"
    } else if 12 <= hour && hour <= 17 {
        "afternoon"
    } else if 18 <= hour && hour <= 23 {
        "evening"
    } else {
        "night"
    }
}

/// The hour of the local clock, from `chrono::Local::now().hour()`.
/// Claimed: below 24, as `chrono` documents for `Timelike::hour`; which hour
/// depends on the clock.
#[verifier::external_body]
fn current_hour() -> (r: u32)
    ensures
        r < 24,
{
    chrono::Local::now().hour()
}

/// The part of the day now.
pub fn get_current_time_period() -> (r: &'static str)
    ensures
        exists|h: int| 0 <= h < 24 && r@ == #[trigger] period_text(h),
{
    let h = current_hour();
    let r = time_period_of(h);
    assert(r@ == period_text(h as int));
    r
}

/// The level of encouragement for a streak: `highlight` from 7 days,
/// `advanced` from 3, `normal` below.
pub open spec fn streak_level(streak: int) -> Seq<char> {
    if streak >= 7 {
        "highlight"@
    } else if streak >= 3 {
        "advanced"@
    } else {
        "normal"@
    }
}

/// The levels tried in turn for a streak: its level, then `normal`.
pub fn streak_levels(streak: i64) -> (r: Vec<String>)
    ensures
        streak < 3 ==> r@.len() == 1 && r@[0]@ == "normal"@,
        streak >= 3 ==> r@.len() == 2 && r@[0]@ == streak_level(streak as int) && r@[1]@ == "normal"@,
{
    let mut r: Vec<String> = Vec::new();
    if streak >= 7 {
        r.push(String::from_str("highlight"));
    } else if streak >= 3 {
        r.push(String::from_str("advanced"));
    }
    r.push(String::from_str("normal"));
    r
}

/// The levels tried in turn for a celebration.
pub fn celebration_levels() -> (r: Vec<String>)
    ensures
        r@.len() == 4,
        r@[0]@ == "celebration"@,
        r@[1]@ == "highlight"@,
        r@[2]@ == "advanced"@,
        r@[3]@ == "normal"@,
{
    let mut r: Vec<String> = Vec::new();
    r.push(String::from_str("celebration"));
    r.push(String::from_str("highlight"));
    r.push(String::from_str("advanced"));
    r.push(String::from_str("normal"));
    r
}

/// The filters tried in turn when drawing a text of one level: with a style,
/// style and part of the day, then style alone, then none; without a style,
/// part of the day, then none.
pub fn filter_combos(style: &Option<String>, period: &str) -> (r: Vec<(Option<String>, Option<String>)>)
    ensures
        style is Some ==> r@.len() == 3 && r@[0].0 == style && r@[0].1 is Some && r@[0].1->0@ == period@ && r@[1].0
            == style && r@[1].1 is None && r@[2].0 is None && r@[2].1 is None,
        style is None ==> r@.len() == 2 && r@[0].0 is None && r@[0].1 is Some && r@[0].1->0@ == period@ && r@[1].0 is None
            && r@[1].1 is None,
{
    let mut r: Vec<(Option<String>, Option<String>)> = Vec::new();
    match style {
        Some(s) => {
            r.push((Some(s.clone()), Some(String::from_str(period))));
            r.push((Some(s.clone()), None));
            r.push((None, None));
        },
        None => {
            r.push((None, Some(String::from_str(period))));
            r.push((None, None));
        },
    }
    r
}

/// The next step of drawing a text over a list of levels, each tried with
/// the filters of `filter_combos` in turn.
#[derive(Debug)]
pub enum DrawStep {
    /// Fetch the candidates of the level at position `level` of the list,
    /// with the given style and part-of-day filters.
    Fetch { level: usize, style: Option<String>, period: Option<String> },
    /// Draw from the candidates fetched last.
    Draw,
    /// Every level and filter came up empty.
    Nothing,
}

/// The number of filter combinations tried for one level.
pub open spec fn combo_count(style: Option<String>) -> int {
    if style is Some {
        3
    } else {
        2
    }
}

/// The style filter of the `k`-th combination.
pub open spec fn combo_style(style: Option<String>, k: int) -> Option<String> {
    if style is Some && k < 2 {
        style
    } else {
        None
    }
}

/// Whether the `k`-th combination filters by the part of the day.
pub open spec fn combo_uses_period(k: int) -> bool {
    k == 0
}

/// Decides the next step of a draw: after `tried` fetches, the last of
/// which found `last_found` candidates, draw from them if there are any;
/// otherwise fetch with the next level and filter combination (all filters
/// of a level before the next level); once all are tried, give up.
pub fn draw_step(n_levels: usize, style: &Option<String>, period: &str, tried: usize, last_found: usize) -> (r: DrawStep)
    ensures
        tried > 0 && last_found > 0 ==> r is Draw,
        !(tried > 0 && last_found > 0) && (tried as int) / combo_count(*style) < n_levels ==> ({
            let k = (tried as int) % combo_count(*style);
            &&& r is Fetch
            &&& r->level == (tried as int) / combo_count(*style)
            &&& r->Fetch_style == combo_style(*style, k)
            &&& (combo_uses_period(k) ==> r->Fetch_period is Some && r->Fetch_period->0@ == period@)
            &&& (!combo_uses_period(k) ==> r->Fetch_period is None)
        }),
        !(tried > 0 && last_found > 0) && (tried as int) / combo_count(*style) >= n_levels ==> r is Nothing,
{
    if tried > 0 && last_found > 0 {
        return DrawStep::Draw;
    }
    let combos = filter_combos(style, period);
    let c = combos.len();
    let level = tried / c;
    if level >= n_levels {
        return DrawStep::Nothing;
    }
    let k = tried % c;
    let (st, pe) = &combos[k];
    DrawStep::Fetch { level, style: crate::util::copy_opt_string(st), period: crate::util::copy_opt_string(pe) }
}

/// A candidate text with its showing statistics.
#[derive(Debug)]
pub struct CandidateWithStats {
    pub id: String,
    pub text: String,
    pub category: String,
    pub level: String,
    pub created_at: String,
    pub context_tags: Option<String>,
    pub hidden: Option<i32>,
    pub sort_order: Option<i64>,
    pub style: String,
    /// How often the text was shown.
    pub show_count: i64,
    /// Positive when the text is a favourite.
    pub is_favorite: i64,
}

/// The encouragement that candidate `c` stands for.
pub open spec fn is_candidate(e: Encouragement, c: CandidateWithStats) -> bool {
    &&& e.id == c.id
    &&& e.text == c.text
    &&& e.category == c.category
    &&& e.level == c.level
    &&& e.created_at == c.created_at
    &&& e.context_tags == c.context_tags
    &&& e.hidden == c.hidden
    &&& e.sort_order == c.sort_order
    &&& e.style == c.style
}

/// The drawing weight of a candidate, in tenths: one whole, tripled for a
/// text at most seven days old, doubled for a text shown fewer than three
/// times, doubled for a favourite, and cut to a tenth for a text shown
/// recently.
pub open spec fn weight_of(is_new: bool, show_count: int, favorite: int, recent: bool) -> int {
    let w = 10 * (if is_new {
        3int
    } else {
        1int
    }) * (if show_count < 3 {
        2int
    } else {
        1int
    }) * (if favorite > 0 {
        2int
    } else {
        1int
    });
    if recent {
        w / 10
    } else {
        w
    }
}

/// The drawing weight of a candidate, in tenths.
pub fn candidate_weight(is_new: bool, show_count: i64, favorite: i64, recent: bool) -> (r: u64)
    ensures
        r == weight_of(is_new, show_count as int, favorite as int, recent),
        1 <= r <= 120,
{
    let mut w: u64 = 10;
    if is_new {
        w = w * 3;
    }
    if show_count < 3 {
        w = w * 2;
    }
    if favorite > 0 {
        w = w * 2;
    }
    if recent {
        w = w / 10;
    }
    w
}

/// The sum of the first `n` weights.
pub open spec fn prefix_total(w: Seq<u64>, n: int) -> int
    decreases n,
{
    if n <= 0 {
        0
    } else {
        prefix_total(w, n - 1) + w[n - 1]
    }
}

/// `roll` falls on position `i`: the running total before `i` is at most
/// `roll`, the running total through `i` exceeds it.
pub open spec fn picked(w: Seq<u64>, roll: int, i: int) -> bool {
    0 <= i < w.len() && prefix_total(w, i) <= roll < prefix_total(w, i + 1)
}

/// The position that `roll` (below the total weight) falls on.
pub fn pick_by_weight(weights: &Vec<u64>, roll: u128) -> (r: usize)
    requires
        roll < prefix_total(weights@, weights@.len() as int),
    ensures
        picked(weights@, roll as int, r as int),
{
    let n = weights.len();
    let mut acc: u128 = 0;
    let mut i: usize = 0;
    while i < n
        invariant
            n == weights@.len(),
            i <= n,
            acc == prefix_total(weights@, i as int),
            acc <= 0xffff_ffff_ffff_ffffu128 * i,
            acc <= roll,
            roll < prefix_total(weights@, n as int),
        decreases n - i,
    {
        assert(i + 1 <= 0x1_0000_0000_0000_0000int);
        let next = acc + weights[i] as u128;
        if roll < next {
            return i;
        }
        acc = next;
        i = i + 1;
    }
    i
}

/// Whether `chrono::DateTime::parse_from_rfc3339` reads a text as a time.
pub uninterp spec fn spec_rfc3339_ok(s: Seq<char>) -> bool;

/// The number of days since an RFC 3339 time, from
/// `chrono::DateTime::parse_from_rfc3339` and `chrono::Utc::now`. Claimed:
/// `None` exactly when the text does not parse. Nothing is claimed of the
/// number: it depends on the clock.
#[verifier::external_body]
fn days_since(created_at: &str) -> (r: Option<i64>)
    ensures
        r is None <==> !spec_rfc3339_ok(created_at@),
{
    match chrono::DateTime::parse_from_rfc3339(created_at) {
        Ok(created) => Some((chrono::Utc::now() - created.with_timezone(&chrono::Utc)).num_days()),
        Err(_) => None,
    }
}

fn contains_text(list: &Vec<String>, s: &String) -> (r: bool)
    ensures
        r == exists|k: int| 0 <= k < list@.len() && #[trigger] list@[k]@ == s@,
{
    let mut k: usize = 0;
    while k < list.len()
        invariant
            k <= list@.len(),
            forall|q: int| 0 <= q < k ==> #[trigger] list@[q]@ != s@,
        decreases list@.len() - k,
    {
        if list[k] == *s {
            return true;
        }
        k = k + 1;
    }
    false
}

/// The id `id` is among the recently shown ids.
pub open spec fn recently_shown(recent: Seq<String>, id: Seq<char>) -> bool {
    exists|k: int| 0 <= k < recent.len() && #[trigger] recent[k]@ == id
}

/// Which candidates count as new, from their ages in days: a text is new
/// for seven days; one whose age is unknown is not new.
pub open spec fn fresh_of(ages: Seq<Option<i64>>) -> Seq<bool> {
    Seq::new(ages.len(), |k: int| ages[k] is Some && ages[k]->0 <= 7)
}

/// The drawing weights of the candidates, given which of them count as new.
pub open spec fn draw_weights(cands: Seq<CandidateWithStats>, fresh: Seq<bool>, recent: Seq<String>) -> Seq<u64> {
    Seq::new(
        cands.len(),
        |k: int|
            weight_of(
                fresh[k],
                cands[k].show_count as int,
                cands[k].is_favorite as int,
                recently_shown(recent, cands[k].id@),
            ) as u64,
    )
}

/// The draw gave candidate `i`: with the candidates `ages` days old, `roll`
/// lies below the total weight and falls on position `i`.
pub open spec fn drawn(
    cands: Seq<CandidateWithStats>,
    recent: Seq<String>,
    ages: Seq<Option<i64>>,
    roll: int,
    i: int,
) -> bool {
    &&& ages.len() == cands.len()
    &&& 0 <= roll
    &&& picked(draw_weights(cands, fresh_of(ages), recent), roll, i)
}

/// The ages were read from the candidates' creation times: an age is
/// unknown exactly when the creation time does not parse.
pub open spec fn ages_read(cands: Seq<CandidateWithStats>, ages: Seq<Option<i64>>) -> bool {
    &&& ages.len() == cands.len()
    &&& forall|k: int| 0 <= k < ages.len() ==> (#[trigger] ages[k] is None <==> !spec_rfc3339_ok(cands[k].created_at@))
}

/// The drawing weights of the candidates, in tenths, given their ages in
/// days (`None` when unknown) and the recently shown ids.
pub fn candidate_weights(
    candidates: &Vec<CandidateWithStats>,
    recent_shown_ids: &Vec<String>,
    ages: &Vec<Option<i64>>,
) -> (w: Vec<u64>)
    requires
        ages@.len() == candidates@.len(),
    ensures
        w@ == draw_weights(candidates@, fresh_of(ages@), recent_shown_ids@),
        forall|k: int| 0 <= k < w@.len() ==> 1 <= #[trigger] w@[k] <= 120,
{
    let n = candidates.len();
    let mut weights: Vec<u64> = Vec::new();
    let mut i: usize = 0;
    while i < n
        invariant
            n == candidates@.len(),
            ages@.len() == n,
            i <= n,
            weights@.len() == i,
            forall|k: int| 0 <= k < i ==> 1 <= #[trigger] weights@[k] <= 120,
            forall|k: int|
                0 <= k < i ==> #[trigger] weights@[k] == draw_weights(candidates@, fresh_of(ages@), recent_shown_ids@)[k],
        decreases n - i,
    {
        let c = &candidates[i];
        let is_new = match ages[i] {
            Some(d) => d <= 7,
            None => false,
        };
        let recent = contains_text(recent_shown_ids, &c.id);
        let w = candidate_weight(is_new, c.show_count, c.is_favorite, recent);
        weights.push(w);
        i = i + 1;
    }
    assert(weights@ =~= draw_weights(candidates@, fresh_of(ages@), recent_shown_ids@));
    weights
}

/// The candidate that `roll` falls on, with the candidates `ages` days old
/// (`None` when unknown); `roll` lies below the total weight.
pub fn pick_candidate(
    candidates: &Vec<CandidateWithStats>,
    recent_shown_ids: &Vec<String>,
    ages: &Vec<Option<i64>>,
    roll: u128,
) -> (r: Encouragement)
    requires
        ages@.len() == candidates@.len(),
        roll < prefix_total(
            draw_weights(candidates@, fresh_of(ages@), recent_shown_ids@),
            candidates@.len() as int,
        ),
    ensures
        exists|i: int| #[trigger] drawn(candidates@, recent_shown_ids@, ages@, roll as int, i) && is_candidate(r, candidates@[i]),
{
    let weights = candidate_weights(candidates, recent_shown_ids, ages);
    let p = pick_by_weight(&weights, roll);
    assert(drawn(candidates@, recent_shown_ids@, ages@, roll as int, p as int));
    let c = &candidates[p];
    Encouragement {
        id: c.id.clone(),
        text: c.text.clone(),
        category: c.category.clone(),
        level: c.level.clone(),
        created_at: c.created_at.clone(),
        context_tags: crate::util::copy_opt_string(&c.context_tags),
        hidden: c.hidden,
        sort_order: c.sort_order,
        style: c.style.clone(),
    }
}

/// Draws one candidate at random, each with a chance in proportion to its
/// weight; an empty list is an error. The age of each text comes from the
/// clock and the roll from chance: the result is the candidate that some
/// roll below the total weight falls on, with the ages read from the
/// creation times (unknown exactly for a time that does not parse) and the
/// weights as `candidate_weights` gives them.
pub fn weighted_random_pick(candidates: &Vec<CandidateWithStats>, recent_shown_ids: &Vec<String>) -> (r: AppResult<
    Encouragement,
>)
    ensures
        candidates@.len() == 0 ==> r is Err && is_business_err(r->Err_0, "候选鼓励语列表为空"@),
        candidates@.len() > 0 ==> r is Ok && exists|ages: Seq<Option<i64>>, roll: int, i: int|
            #[trigger] drawn(candidates@, recent_shown_ids@, ages, roll, i) && ages_read(candidates@, ages)
                && is_candidate(r->Ok_0, candidates@[i]),
{
    let n = candidates.len();
    if n == 0 {
        return Err(AppError::Business(String::from_str("候选鼓励语列表为空")));
    }
    let mut ages: Vec<Option<i64>> = Vec::new();
    let mut i: usize = 0;
    while i < n
        invariant
            n == candidates@.len(),
            i <= n,
            ages@.len() == i,
            forall|k: int|
                0 <= k < i ==> (#[trigger] ages@[k] is None <==> !spec_rfc3339_ok(candidates@[k].created_at@)),
        decreases n - i,
    {
        ages.push(days_since(candidates[i].created_at.as_str()));
        i = i + 1;
    }
    let weights = candidate_weights(candidates, recent_shown_ids, &ages);
    let mut total: u128 = 0;
    let mut k: usize = 0;
    while k < n
        invariant
            n == weights@.len(),
            k <= n,
            forall|q: int| 0 <= q < n ==> 1 <= #[trigger] weights@[q] <= 120,
            total == prefix_total(weights@, k as int),
            k <= total <= 120 * k,
        decreases n - k,
    {
        total = total + weights[k] as u128;
        k = k + 1;
    }
    let roll = random_below(total);
    let e = pick_candidate(candidates, recent_shown_ids, &ages, roll);
    proof {
        assert(ages_read(candidates@, ages@));
    }
    Ok(e)
}

/// The columns of a new encouragement text.
#[derive(Debug)]
pub struct NewEncouragement {
    pub id: String,
    pub text: String,
    pub level: String,
    pub created_at: String,
    pub sort_order: i64,
}

/// The key under which texts count as the same: trimmed and in lower case.
pub fn encouragement_key(text: &str) -> (r: String)
    ensures
        r@ == crate::util::spec_to_lowercase(spec_trim(text@)),
{
    crate::util::to_lowercase(trim_str(text))
}

/// A new text written by the user.
///
/// A blank text, an invalid level and a text that already exists
/// (`duplicate`, by `encouragement_key`) are refused, in that order. The new
/// text comes last: its position is one past the largest (`max_sort_order`,
/// 0 when there is none).
pub fn add_encouragement(
    text: &String,
    level: &Option<String>,
    duplicate: bool,
    max_sort_order: Option<i64>,
) -> (r: AppResult<NewEncouragement>)
    requires
        max_sort_order != Some(i64::MAX),
    ensures
        spec_trim(text@).len() == 0 ==> r is Err && is_param_err(r->Err_0, "鼓励语内容不能为空"@),
        spec_trim(text@).len() > 0 && level is Some && !is_user_level(level->0@) ==> r is Err && is_param_err(
            r->Err_0,
            "等级无效，应为 normal/advanced/highlight/celebration/setback"@,
        ),
        spec_trim(text@).len() > 0 && (level is None || is_user_level(level->0@)) && duplicate ==> r is Err
            && is_business_err(r->Err_0, "该鼓励语已存在"@),
        spec_trim(text@).len() > 0 && (level is None || is_user_level(level->0@)) && !duplicate ==> r is Ok && ({
            let e = r->Ok_0;
            &&& e.id@.len() == 36
            &&& e.text == *text
            &&& e.level@ == match level {
                Some(l) => l@,
                None => "normal"@,
            }
            &&& e.sort_order == match max_sort_order {
                Some(m) => m + 1,
                None => 1,
            }
        }),
{
    if trim_str(text.as_str()).unicode_len() == 0 {
        return Err(AppError::Param(String::from_str("鼓励语内容不能为空")));
    }
    let lv = match validate_level(level) {
        Ok(l) => l,
        Err(e) => {
            return Err(e);
        },
    };
    if duplicate {
        return Err(AppError::Business(String::from_str("该鼓励语已存在")));
    }
    let sort_order = match max_sort_order {
        Some(m) => m + 1,
        None => 1,
    };
    Ok(
        NewEncouragement {
            id: crate::util::new_uuid(),
            text: text.clone(),
            level: lv,
            created_at: crate::util::now_local_ts(),
            sort_order,
        },
    )
}

/// Edits a text written by the user.
///
/// A missing text and a preset text are refused; a new text must have from
/// 2 to 100 characters once trimmed; a new level must be a user level.
pub fn update_encouragement(item: &Option<Encouragement>, input: &UpdateEncouragementInput) -> (r: AppResult<
    Encouragement,
>)
    ensures
        item is None ==> r is Err && is_not_found_err(r->Err_0, not_found_text("鼓励语"@, input.id@)),
        item is Some ==> ({
            let e = item->0;
            let preset = e.category@ == "preset"@;
            let n = match input.text {
                Some(t) => spec_trim(t@).len() as int,
                None => 2,
            };
            let bad_level = input.level is Some && !is_user_level(input.level->0@);
            &&& preset ==> r is Err && is_business_err(r->Err_0, "预设鼓励语不允许修改"@)
            &&& !preset && n < 2 ==> r is Err && is_param_err(r->Err_0, "鼓励语至少 2 个字"@)
            &&& !preset && n > 100 ==> r is Err && is_param_err(r->Err_0, "鼓励语不超过 100 字"@)
            &&& !preset && 2 <= n <= 100 && bad_level ==> r is Err && is_param_err(
                r->Err_0,
                "等级无效，应为 normal/advanced/highlight/celebration/setback"@,
            )
            &&& !preset && 2 <= n <= 100 && !bad_level ==> r is Ok && r->Ok_0 == (Encouragement {
                text: match input.text {
                    Some(t) => t,
                    None => e.text,
                },
                level: match input.level {
                    Some(l) => l,
                    None => e.level,
                },
                ..e
            })
        }),
{
    let e = match item {
        Some(e) => e,
        None => {
            return Err(not_found("鼓励语", input.id.as_str()));
        },
    };
    if str_eq(e.category.as_str(), "preset") {
        return Err(AppError::Business(String::from_str("预设鼓励语不允许修改")));
    }
    if let Some(t) = &input.text {
        let n = trim_str(t.as_str()).unicode_len();
        if n < 2 {
            return Err(AppError::Param(String::from_str("鼓励语至少 2 个字")));
        }
        if n > 100 {
            return Err(AppError::Param(String::from_str("鼓励语不超过 100 字")));
        }
    }
    if let Some(l) = &input.level {
        if !crate::models::is_user_level_str(l.as_str()) {
            return Err(AppError::Param(String::from_str("等级无效，应为 normal/advanced/highlight/celebration/setback")));
        }
    }
    let mut r = Encouragement {
        id: e.id.clone(),
        text: e.text.clone(),
        category: e.category.clone(),
        level: e.level.clone(),
        created_at: e.created_at.clone(),
        context_tags: crate::util::copy_opt_string(&e.context_tags),
        hidden: e.hidden,
        sort_order: e.sort_order,
        style: e.style.clone(),
    };
    if let Some(t) = &input.text {
        r.text = t.clone();
    }
    if let Some(l) = &input.level {
        r.level = l.clone();
    }
    Ok(r)
}

/// Whether a text may be deleted: it must exist and not be a preset.
pub fn delete_encouragement(item: &Option<Encouragement>, id: &str) -> (r: AppResult<()>)
    ensures
        item is None ==> r is Err && is_not_found_err(r->Err_0, not_found_text("鼓励语"@, id@)),
        item is Some && item->0.category@ == "preset"@ ==> r is Err && is_business_err(
            r->Err_0,
            "预设鼓励语不允许删除"@,
        ),
        item is Some && item->0.category@ != "preset"@ ==> r is Ok,
{
    match item {
        None => Err(not_found("鼓励语", id)),
        Some(e) => {
            if str_eq(e.category.as_str(), "preset") {
                Err(AppError::Business(String::from_str("预设鼓励语不允许删除")))
            } else {
                Ok(())
            }
        },
    }
}

/// Whether a text may be hidden: it must exist and be a preset.
pub fn hide_preset_encouragement(category: &Option<String>) -> (r: AppResult<()>)
    ensures
        category is None ==> r is Err && is_not_found_err(r->Err_0, "鼓励语不存在"@),
        category is Some && category->0@ == "preset"@ ==> r is Ok,
        category is Some && category->0@ != "preset"@ ==> r is Err && is_business_err(r->Err_0, "仅预设文案可隐藏"@),
{
    match category {
        None => Err(AppError::NotFound(String::from_str("鼓励语不存在"))),
        Some(c) => {
            if str_eq(c.as_str(), "preset") {
                Ok(())
            } else {
                Err(AppError::Business(String::from_str("仅预设文案可隐藏")))
            }
        },
    }
}

/// The position of the text with id `id`, if there is one.
pub open spec fn enc_index(encs: Seq<Encouragement>, id: Seq<char>) -> Option<int> {
    if exists|j: int| 0 <= j < encs.len() && #[trigger] encs[j].id@ == id {
        Some(choose|j: int| 0 <= j < encs.len() && #[trigger] encs[j].id@ == id)
    } else {
        None
    }
}

/// No two texts share an id.
pub open spec fn enc_ids_distinct(encs: Seq<Encouragement>) -> bool {
    forall|a: int, b: int|
        0 <= a < encs.len() && 0 <= b < encs.len() && a != b ==> #[trigger] encs[a].id@ != #[trigger] encs[b].id@
}

/// The id names a text written by the user.
pub open spec fn is_custom_id(encs: Seq<Encouragement>, id: Seq<char>) -> bool {
    enc_index(encs, id) is Some && encs[enc_index(encs, id)->0].category@ != "preset"@
}

fn custom_id(encs: &Vec<Encouragement>, id: &String) -> (r: bool)
    requires
        enc_ids_distinct(encs@),
    ensures
        r == is_custom_id(encs@, id@),
{
    let mut k: usize = 0;
    while k < encs.len()
        invariant
            k <= encs@.len(),
            enc_ids_distinct(encs@),
            forall|a: int| 0 <= a < k ==> #[trigger] encs@[a].id@ != id@,
        decreases encs@.len() - k,
    {
        if encs[k].id == *id {
            proof {
                let c = choose|j: int| 0 <= j < encs@.len() && #[trigger] encs@[j].id@ == id@;
                if c != k as int {
                    assert(encs@[c].id@ != encs@[k as int].id@);
                }
            }
            return !str_eq(encs[k].category.as_str(), "preset");
        }
        k = k + 1;
    }
    false
}

/// The ids, among the first `upto`, of the texts that a batch deletion
/// removes: texts written by the user, each at its first mention.
pub open spec fn batch_removed(encs: Seq<Encouragement>, ids: Seq<String>, upto: int) -> Seq<Seq<char>>
    decreases upto,
{
    if upto <= 0 {
        Seq::empty()
    } else {
        let prev = batch_removed(encs, ids, upto - 1);
        let id = ids[upto - 1]@;
        if is_custom_id(encs, id) && !(exists|j: int| 0 <= j < upto - 1 && #[trigger] ids[j]@ == id) {
            prev.push(id)
        } else {
            prev
        }
    }
}

/// The message of a batch above the size limit.
pub open spec fn batch_limit_text() -> Seq<char> {
    "批量操作一次最多 500 条"@
}

/// The texts a batch deletion removes (presets and missing ids are passed
/// over); a batch of more than 500 ids is refused.
pub fn batch_delete_encouragements(encs: &Vec<Encouragement>, ids: &Vec<String>) -> (r: AppResult<Vec<String>>)
    requires
        enc_ids_distinct(encs@),
    ensures
        ids@.len() > MAX_BATCH_SIZE ==> r is Err && is_param_err(r->Err_0, batch_limit_text()),
        ids@.len() <= MAX_BATCH_SIZE ==> r is Ok && r->Ok_0@.map_values(|s: String| s@) == batch_removed(
            encs@,
            ids@,
            ids@.len() as int,
        ),
{
    if ids.len() > MAX_BATCH_SIZE {
        return Err(AppError::Param(String::from_str("批量操作一次最多 500 条")));
    }
    let mut out: Vec<String> = Vec::new();
    let mut k: usize = 0;
    while k < ids.len()
        invariant
            k <= ids@.len(),
            enc_ids_distinct(encs@),
            out@.map_values(|s: String| s@) == batch_removed(encs@, ids@, k as int),
        decreases ids@.len() - k,
    {
        let id = &ids[k];
        let mut seen = false;
        let mut j: usize = 0;
        while j < k
            invariant
                k < ids@.len(),
                *id == ids@[k as int],
                j <= k,
                seen == exists|q: int| 0 <= q < j && #[trigger] ids@[q]@ == ids@[k as int]@,
            decreases k - j,
        {
            let hit = ids[j] == *id;
            proof {
                if seen {
                    let q = choose|q: int| 0 <= q < j && #[trigger] ids@[q]@ == ids@[k as int]@;
                    assert(0 <= q < j + 1);
                }
                if exists|q: int| 0 <= q < j + 1 && #[trigger] ids@[q]@ == ids@[k as int]@ {
                    let q = choose|q: int| 0 <= q < j + 1 && #[trigger] ids@[q]@ == ids@[k as int]@;
                    if q < j {
                        assert(seen);
                    }
                }
            }
            seen = seen || hit;
            j = j + 1;
        }
        if !seen && custom_id(encs, id) {
            let ghost old_out = out@;
            out.push(id.clone());
            proof {
                assert(out@.map_values(|s: String| s@) =~= old_out.map_values(|s: String| s@).push(id@));
            }
        }
        k = k + 1;
    }
    Ok(out)
}

/// The ids, among the first `upto`, of the texts a batch level change
/// updates: every mention of a text written by the user.
pub open spec fn batch_relevelled(encs: Seq<Encouragement>, ids: Seq<String>, upto: int) -> Seq<Seq<char>>
    decreases upto,
{
    if upto <= 0 {
        Seq::empty()
    } else {
        let prev = batch_relevelled(encs, ids, upto - 1);
        if is_custom_id(encs, ids[upto - 1]@) {
            prev.push(ids[upto - 1]@)
        } else {
            prev
        }
    }
}

/// The texts a batch level change updates (presets and missing ids are
/// passed over); a batch of more than 500 ids and an invalid level are
/// refused, in that order.
pub fn batch_update_encouragement_level(encs: &Vec<Encouragement>, ids: &Vec<String>, level: &String) -> (r: AppResult<
    Vec<String>,
>)
    requires
        enc_ids_distinct(encs@),
    ensures
        ids@.len() > MAX_BATCH_SIZE ==> r is Err && is_param_err(r->Err_0, batch_limit_text()),
        ids@.len() <= MAX_BATCH_SIZE && !is_user_level(level@) ==> r is Err && is_param_err(
            r->Err_0,
            "等级无效，应为 normal/advanced/highlight/celebration/setback"@,
        ),
        ids@.len() <= MAX_BATCH_SIZE && is_user_level(level@) ==> r is Ok && r->Ok_0@.map_values(|s: String| s@)
            == batch_relevelled(encs@, ids@, ids@.len() as int),
{
    if ids.len() > MAX_BATCH_SIZE {
        return Err(AppError::Param(String::from_str("批量操作一次最多 500 条")));
    }
    if !crate::models::is_user_level_str(level.as_str()) {
        return Err(AppError::Param(String::from_str("等级无效，应为 normal/advanced/highlight/celebration/setback")));
    }
    let mut out: Vec<String> = Vec::new();
    let mut k: usize = 0;
    while k < ids.len()
        invariant
            k <= ids@.len(),
            enc_ids_distinct(encs@),
            out@.map_values(|s: String| s@) == batch_relevelled(encs@, ids@, k as int),
        decreases ids@.len() - k,
    {
        if custom_id(encs, &ids[k]) {
            let ghost old_out = out@;
            out.push(ids[k].clone());
            proof {
                assert(out@.map_values(|s: String| s@) =~= old_out.map_values(|s: String| s@).push(ids@[k as int]@));
            }
        }
        k = k + 1;
    }
    Ok(out)
}

/// How the current streak stands to the longest: beyond it (`超越历史`),
/// level with it (`追平历史`), or within two days of it (`接近历史`); nothing
/// when there is no longest streak yet or the gap is larger.
pub fn check_longest_streak_milestone(info: &StreakInfo) -> (r: Option<StreakMilestone>)
    ensures
        ({
            let c = info.current_streak as int;
            let l = info.longest_streak as int;
            &&& l > 0 && c > l ==> r is Some && r->0.milestone_type@ == "超越历史"@
            &&& l > 0 && c == l ==> r is Some && r->0.milestone_type@ == "追平历史"@
            &&& l > 0 && l - 2 <= c < l ==> r is Some && r->0.milestone_type@ == "接近历史"@
            &&& (l <= 0 || c < l - 2) ==> r is None
            &&& r is Some ==> r->0.current_streak == info.current_streak && r->0.longest_streak == info.longest_streak
        }),
{
    let c = info.current_streak;
    let l = info.longest_streak;
    if l > 0 && c >= l {
        let t = if c > l {
            String::from_str("超越历史")
        } else {
            String::from_str("追平历史")
        };
        Some(StreakMilestone { milestone_type: t, current_streak: c, longest_streak: l })
    } else if l > 0 && c >= l - 2 {
        Some(StreakMilestone { milestone_type: String::from_str("接近历史"), current_streak: c, longest_streak: l })
    } else {
        None
    }
}

/// The value of a text of decimal digits.
pub open spec fn digits_value(s: Seq<char>) -> int
    decreases s.len(),
{
    if s.len() == 0 {
        0
    } else {
        digits_value(s.drop_last()) * 10 + (s.last() as int - '0' as int)
    }
}

/// Every character of `s` is a decimal digit.
pub open spec fn all_digits(s: Seq<char>) -> bool {
    forall|i: int| 0 <= i < s.len() ==> '0' <= #[trigger] s[i] <= '9'
}

/// The text after a leading `+` or `-`, if there is one.
pub open spec fn unsigned_part(s: Seq<char>) -> Seq<char> {
    if s.len() > 0 && (s[0] == '-' || s[0] == '+') {
        s.drop_first()
    } else {
        s
    }
}

/// What `str::parse::<i32>` gives, as its documentation states it: an
/// optional `+` or `-` followed by one or more decimal digits, within the
/// range of `i32`; anything else (whitespace included) is an error.
pub open spec fn i32_text_value(s: Seq<char>) -> Option<int> {
    let body = unsigned_part(s);
    let v = if s.len() > 0 && s[0] == '-' {
        -digits_value(body)
    } else {
        digits_value(body)
    };
    if body.len() > 0 && all_digits(body) && i32::MIN <= v <= i32::MAX {
        Some(v)
    } else {
        None
    }
}

/// The value of a text of decimal digits is at least that of each of its
/// prefixes, and never negative.
proof fn lemma_digits_grow(s: Seq<char>, j: int)
    requires
        0 <= j <= s.len(),
        forall|i: int| 0 <= i < s.len() ==> '0' <= #[trigger] s[i] <= '9',
    ensures
        digits_value(s) >= digits_value(s.take(j)),
        digits_value(s.take(j)) >= 0,
    decreases s.len(),
{
    if j == s.len() {
        assert(s.take(j) =~= s);
        if s.len() > 0 {
            lemma_digits_grow(s.drop_last(), 0);
        }
    } else {
        let t = s.drop_last();
        lemma_digits_grow(t, j);
        lemma_digits_grow(t, t.len() as int);
        assert(t.take(t.len() as int) =~= t);
        assert(t.take(j) =~= s.take(j));
    }
}

/// Reads a decimal `i32` as `str::parse::<i32>` does: an optional sign and
/// one or more digits, within the range of `i32`.
fn parse_i32(s: &str) -> (r: Option<i32>)
    ensures
        match i32_text_value(s@) {
            Some(v) => r == Some(v as i32),
            None => r is None,
        },
{
    let n = s.unicode_len();
    if n == 0 {
        return None;
    }
    let first = s.get_char(0);
    let neg = first == '-';
    let start: usize = if first == '-' || first == '+' {
        1
    } else {
        0
    };
    if start == n {
        return None;
    }
    let ghost body = if start == 1 {
        s@.drop_first()
    } else {
        s@
    };
    assert(body.len() == n - start);
    assert(s@[0] == first);
    assert(body == unsigned_part(s@));
    let mut acc: i64 = 0;
    let mut i: usize = start;
    while i < n
        invariant
            n == s@.len(),
            start <= i <= n,
            start < n,
            body.len() == n - start,
            body == unsigned_part(s@),
            neg == (s@[0] == '-'),
            forall|k: int| 0 <= k < body.len() ==> body[k] == s@[k + start],
            forall|k: int| 0 <= k < i - start ==> '0' <= #[trigger] body[k] <= '9',
            acc == digits_value(body.take(i - start)),
            0 <= acc <= 2147483648,
        decreases n - i,
    {
        let c = s.get_char(i);
        if !('0' <= c && c <= '9') {
            assert(body[i - start] == c);
            assert(!('0' <= body[i - start] <= '9'));
            assert(!all_digits(body));
            assert(i32_text_value(s@) is None);
            return None;
        }
        let d = (c as u32 - '0' as u32) as i64;
        let ghost k = (i - start) as int;
        assert(body.take(k + 1).drop_last() =~= body.take(k));
        assert(body.take(k + 1).last() == c);
        acc = acc * 10 + d;
        i = i + 1;
        if acc > 2147483648 {
            proof {
                if all_digits(body) {
                    lemma_digits_grow(body, k + 1);
                    assert(digits_value(body) > 2147483648);
                }
            }
            assert(i32_text_value(s@) is None);
            return None;
        }
    }
    assert(body.take(n - start) =~= body);
    let v: i64 = if neg {
        -acc
    } else {
        acc
    };
    if v < -2147483648 || v > 2147483647 {
        None
    } else {
        Some(v as i32)
    }
}

/// The daily streak-break check.
#[derive(Debug)]
pub struct StreakBreakCheck {
    /// Yesterday's streak of three days or more broke today.
    pub has_streak_break: bool,
    /// The streak that broke (0 when none did).
    pub streak_break_prev: i32,
    /// Whether today's date and streak are to be recorded.
    pub record: bool,
}

/// Checks once a day whether a streak broke: when the last check was on
/// another day (or never), a recorded streak of three days or more that is
/// now zero, with tasks today and nothing done today, is a break.
pub fn streak_break_check(
    last_check_date: &Option<String>,
    last_streak_value: &Option<String>,
    today: &str,
    streak: &StreakInfo,
    has_tasks_today: bool,
) -> (r: StreakBreakCheck)
    ensures
        r.record == !(last_check_date is Some && last_check_date->0@ == today@),
        ({
            let prev = match last_streak_value {
                Some(v) => i32_text_value(v@),
                None => None,
            };
            let broke = r.record && prev is Some && prev->0 >= 3 && streak.current_streak == 0 && has_tasks_today
                && !streak.completed_today;
            &&& r.has_streak_break == broke
            &&& r.streak_break_prev == if broke {
                prev->0
            } else {
                0
            }
        }),
{
    let should_check = match last_check_date {
        Some(d) => !str_eq(d.as_str(), today),
        None => true,
    };
    let prev = match last_streak_value {
        Some(v) => parse_i32(v.as_str()),
        None => None,
    };
    let (has_break, prev_value) = if should_check {
        match prev {
            Some(p) => {
                if p >= 3 && streak.current_streak == 0 && has_tasks_today && !streak.completed_today {
                    (true, p)
                } else {
                    (false, 0)
                }
            },
            None => (false, 0),
        }
    } else {
        (false, 0)
    };
    StreakBreakCheck { has_streak_break: has_break, streak_break_prev: prev_value, record: should_check }
}

/// The list holds the text `s`.
pub open spec fn holds(list: Seq<String>, s: Seq<char>) -> bool {
    exists|k: int| 0 <= k < list.len() && #[trigger] list[k]@ == s
}

/// The predicted day of finishing, when it is given and parses.
pub open spec fn predicted_day(p: CompletionPrediction) -> Option<int> {
    match p.predicted_date {
        Some(d) => match spec_parse_ymd(d@) {
            Ok(x) => Some(x),
            Err(_) => None,
        },
        None => None,
    }
}

/// The goal of `p` lags on `today`: a top-level goal, not completed, whose
/// deadline has passed or is predicted to be missed.
pub open spec fn is_lagging(p: CompletionPrediction, roots: Seq<String>, done: Seq<String>, today: int) -> bool {
    &&& holds(roots, p.goal_id@)
    &&& !holds(done, p.goal_id@)
    &&& p.deadline is Some
    &&& spec_parse_ymd(p.deadline->0@) is Ok
    &&& ({
        let dl = spec_parse_ymd(p.deadline->0@)->Ok_0;
        dl < today || (predicted_day(p) is Some && predicted_day(p)->0 > dl)
    })
}

/// The positions, among the first `upto`, of the lagging goals.
pub open spec fn lagging_positions(
    preds: Seq<CompletionPrediction>,
    roots: Seq<String>,
    done: Seq<String>,
    today: int,
    upto: int,
) -> Seq<int>
    decreases upto,
{
    if upto <= 0 {
        Seq::empty()
    } else if is_lagging(preds[upto - 1], roots, done, today) {
        lagging_positions(preds, roots, done, today, upto - 1).push(upto - 1)
    } else {
        lagging_positions(preds, roots, done, today, upto - 1)
    }
}

/// `g` reports the lagging goal of `p`.
pub open spec fn lagging_item(g: LaggingGoal, p: CompletionPrediction) -> bool {
    &&& g.id == p.goal_id
    &&& g.name == p.goal_name
    &&& g.deadline == p.deadline->0
    &&& g.predicted_end_date@ == match predicted_day(p) {
        Some(d) => spec_format_ymd(d),
        None => p.deadline->0@,
    }
    &&& g.days_remaining == (match p.days_to_deadline {
        Some(d) => d,
        None => 0,
    }) as i32
}

fn holds_text(list: &Vec<String>, s: &String) -> (r: bool)
    ensures
        r == holds(list@, s@),
{
    contains_text(list, s)
}

/// The lagging goals among the forecasts, in their order.
pub fn lagging_goals(
    preds: &Vec<CompletionPrediction>,
    roots: &Vec<String>,
    done: &Vec<String>,
    today: i32,
) -> (r: Vec<LaggingGoal>)
    ensures
        r@.len() == lagging_positions(preds@, roots@, done@, today as int, preds@.len() as int).len(),
        forall|k: int|
            0 <= k < r@.len() ==> lagging_item(
                #[trigger] r@[k],
                preds@[lagging_positions(preds@, roots@, done@, today as int, preds@.len() as int)[k]],
            ),
{
    let mut out: Vec<LaggingGoal> = Vec::new();
    let mut k: usize = 0;
    while k < preds.len()
        invariant
            k <= preds@.len(),
            out@.len() == lagging_positions(preds@, roots@, done@, today as int, k as int).len(),
            forall|q: int|
                0 <= q < out@.len() ==> lagging_item(
                    #[trigger] out@[q],
                    preds@[lagging_positions(preds@, roots@, done@, today as int, k as int)[q]],
                ),
        decreases preds@.len() - k,
    {
        let p = &preds[k];
        if holds_text(roots, &p.goal_id) && !holds_text(done, &p.goal_id) {
            if let Some(deadline) = &p.deadline {
                if let Ok(dl) = parse_ymd(deadline.as_str()) {
                    let predicted: Option<i32> = match &p.predicted_date {
                        Some(d) => match parse_ymd(d.as_str()) {
                            Ok(x) => Some(x),
                            Err(_) => None,
                        },
                        None => None,
                    };
                    let late = match predicted {
                        Some(x) => x > dl,
                        None => false,
                    };
                    if dl < today || late {
                        let end = match predicted {
                            Some(x) => format_ymd(x),
                            None => deadline.clone(),
                        };
                        let days = match p.days_to_deadline {
                            Some(d) => d,
                            None => 0,
                        };
                        out.push(
                            LaggingGoal {
                                id: p.goal_id.clone(),
                                name: p.goal_name.clone(),
                                deadline: deadline.clone(),
                                predicted_end_date: end,
                                days_remaining: days as i32,
                            },
                        );
                    }
                }
            }
        }
        k = k + 1;
    }
    out
}

/// The id is that of a top-level goal.
pub open spec fn is_root_id(goals: Seq<Goal>, id: Seq<char>) -> bool {
    exists|g: int| 0 <= g < goals.len() && #[trigger] goals[g].id@ == id && goals[g].parent_id is None
}

/// The id is that of a completed goal.
pub open spec fn is_done_id(goals: Seq<Goal>, tasks: Seq<Task>, id: Seq<char>) -> bool {
    exists|g: int| 0 <= g < goals.len() && #[trigger] goals[g].id@ == id && goal_completed(goals, tasks, g)
}

/// Today's setbacks: the daily streak-break check (see `streak_break_check`)
/// and the lagging goals among the top-level goals that are not completed
/// (see `lagging_goals`). The flag says whether today's date and streak are
/// to be recorded.
pub fn get_setback_situation(
    last_check_date: &Option<String>,
    last_streak_value: &Option<String>,
    today_text: &str,
    today: i32,
    streak: &StreakInfo,
    has_tasks_today: bool,
    goals: &Vec<Goal>,
    tasks: &Vec<Task>,
    preds: &Vec<CompletionPrediction>,
) -> (r: (SetbackSituation, bool))
    requires
        goal_ids_distinct(goals@),
        plan_size(tasks@) <= i64::MAX,
        actual_size(tasks@) <= i64::MAX,
    ensures
        r.1 == !(last_check_date is Some && last_check_date->0@ == today_text@),
        ({
            let prev = match last_streak_value {
                Some(v) => i32_text_value(v@),
                None => None,
            };
            let broke = r.1 && prev is Some && prev->0 >= 3 && streak.current_streak == 0 && has_tasks_today
                && !streak.completed_today;
            &&& r.0.has_streak_break == broke
            &&& r.0.streak_break_prev == if broke {
                prev->0
            } else {
                0
            }
        }),
        r.0.has_progress_lag == (r.0.lagging_goals@.len() > 0),
        exists|roots: Seq<String>, done: Seq<String>|
            (forall|id: Seq<char>| #[trigger] holds(roots, id) == is_root_id(goals@, id)) && (forall|id: Seq<char>|
                #[trigger] holds(done, id) == is_done_id(goals@, tasks@, id)) && r.0.lagging_goals@.len()
                == lagging_positions(preds@, roots, done, today as int, preds@.len() as int).len() && forall|k: int|
                0 <= k < r.0.lagging_goals@.len() ==> lagging_item(
                    #[trigger] r.0.lagging_goals@[k],
                    preds@[lagging_positions(preds@, roots, done, today as int, preds@.len() as int)[k]],
                ),
{
    let check = streak_break_check(last_check_date, last_streak_value, today_text, streak, has_tasks_today);
    let progress = calc_all_goals_progress(goals, tasks);
    let mut roots: Vec<String> = Vec::new();
    let mut done: Vec<String> = Vec::new();
    let n = goals.len();
    let mut g: usize = 0;
    while g < n
        invariant
            n == goals@.len(),
            g <= n,
            progress@.len() == n,
            forall|x: int| 0 <= x < n ==> crate::progress::progress_of(#[trigger] progress@[x], goals@, tasks@, x),
            forall|id: Seq<char>|
                #[trigger] holds(roots@, id) == exists|x: int|
                    0 <= x < g && #[trigger] goals@[x].id@ == id && goals@[x].parent_id is None,
            forall|id: Seq<char>|
                #[trigger] holds(done@, id) == exists|x: int|
                    0 <= x < g && #[trigger] goals@[x].id@ == id && goal_completed(goals@, tasks@, x),
        decreases n - g,
    {
        let ghost old_roots = roots@;
        let ghost old_done = done@;
        if goals[g].parent_id.is_none() {
            roots.push(goals[g].id.clone());
        }
        assert(crate::progress::progress_of(progress@[g as int], goals@, tasks@, g as int));
        if progress[g].is_completed {
            done.push(goals[g].id.clone());
        }
        proof {
            assert forall|id: Seq<char>| #[trigger] holds(roots@, id) == exists|x: int|
                0 <= x < g + 1 && #[trigger] goals@[x].id@ == id && goals@[x].parent_id is None by {
                if holds(roots@, id) {
                    let k = choose|k: int| 0 <= k < roots@.len() && #[trigger] roots@[k]@ == id;
                    if k < old_roots.len() {
                        assert(old_roots[k]@ == id);
                        assert(holds(old_roots, id));
                    }
                }
                if exists|x: int| 0 <= x < g + 1 && #[trigger] goals@[x].id@ == id && goals@[x].parent_id is None {
                    let x = choose|x: int| 0 <= x < g + 1 && #[trigger] goals@[x].id@ == id && goals@[x].parent_id is None;
                    if x < g {
                        assert(holds(old_roots, id));
                        let k = choose|k: int| 0 <= k < old_roots.len() && #[trigger] old_roots[k]@ == id;
                        assert(roots@[k]@ == id);
                    } else {
                        assert(roots@[roots@.len() - 1]@ == id);
                    }
                }
            }
            assert forall|id: Seq<char>| #[trigger] holds(done@, id) == exists|x: int|
                0 <= x < g + 1 && #[trigger] goals@[x].id@ == id && goal_completed(goals@, tasks@, x) by {
                if holds(done@, id) {
                    let k = choose|k: int| 0 <= k < done@.len() && #[trigger] done@[k]@ == id;
                    if k < old_done.len() {
                        assert(old_done[k]@ == id);
                        assert(holds(old_done, id));
                    }
                }
                if exists|x: int| 0 <= x < g + 1 && #[trigger] goals@[x].id@ == id && goal_completed(goals@, tasks@, x) {
                    let x = choose|x: int|
                        0 <= x < g + 1 && #[trigger] goals@[x].id@ == id && goal_completed(goals@, tasks@, x);
                    if x < g {
                        assert(holds(old_done, id));
                        let k = choose|k: int| 0 <= k < old_done.len() && #[trigger] old_done[k]@ == id;
                        assert(done@[k]@ == id);
                    } else {
                        assert(done@[done@.len() - 1]@ == id);
                    }
                }
            }
        }
        g = g + 1;
    }
    let lagging = lagging_goals(preds, &roots, &done, today);
    let has_lag = lagging.len() > 0;
    (
        SetbackSituation {
            has_streak_break: check.has_streak_break,
            streak_break_prev: check.streak_break_prev,
            has_progress_lag: has_lag,
            lagging_goals: lagging,
        },
        check.record,
    )
}

} // verus!
