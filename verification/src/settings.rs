//! Preferences for encouragements, kept as key/value settings.

use vstd::prelude::*;

use crate::error::{is_param_err, AppError, AppResult};
use crate::models::{EncouragementSettings, Setting, UpdateEncouragementSettingsInput};
use crate::util::str_eq;

verus! {

/// The value stored under `key`: that of the first row with the key.
pub open spec fn setting_value(rows: Seq<Setting>, key: Seq<char>) -> Option<String>
    decreases rows.len(),
{
    if rows.len() == 0 {
        None
    } else if rows[0].key@ == key {
        Some(rows[0].value)
    } else {
        setting_value(rows.drop_first(), key)
    }
}

/// A stored flag: `true` and `false` (the only texts `bool` parses) give
/// their value; anything else, or nothing, gives the default.
pub open spec fn flag_value(v: Option<String>, default: bool) -> bool {
    match v {
        Some(s) => if s@ == "true"@ {
            true
        } else if s@ == "false"@ {
            false
        } else {
            default
        },
        None => default,
    }
}

/// A stored text, or the default.
pub open spec fn text_value(v: Option<String>, default: Seq<char>) -> Seq<char> {
    match v {
        Some(s) => s@,
        None => default,
    }
}

fn lookup_setting(rows: &Vec<Setting>, key: &str) -> (r: Option<String>)
    ensures
        r == setting_value(rows@, key@),
{
    let mut k: usize = 0;
    proof {
        assert(rows@.subrange(0, rows@.len() as int) =~= rows@);
    }
    while k < rows.len()
        invariant
            k <= rows@.len(),
            setting_value(rows@, key@) == setting_value(rows@.subrange(k as int, rows@.len() as int), key@),
        decreases rows@.len() - k,
    {
        proof {
            assert(rows@.subrange(k as int, rows@.len() as int).drop_first() =~= rows@.subrange(
                k as int + 1,
                rows@.len() as int,
            ));
        }
        if str_eq(rows[k].key.as_str(), key) {
            return Some(rows[k].value.clone());
        }
        k = k + 1;
    }
    None
}

fn flag_of(v: &Option<String>, default: bool) -> (r: bool)
    ensures
        r == flag_value(*v, default),
{
    match v {
        Some(s) => if str_eq(s.as_str(), "true") {
            true
        } else if str_eq(s.as_str(), "false") {
            false
        } else {
            default
        },
        None => default,
    }
}

/// The text stored for the encouragement style, `warm` when there is none.
pub fn current_style(value: &Option<String>) -> (r: String)
    ensures
        r@ == text_value(*value, "warm"@),
{
    match value {
        Some(s) => s.clone(),
        None => String::from_str("warm"),
    }
}

/// The encouragement preferences from the settings rows, with their
/// defaults: enabled, `normal` frequency, `warm` style, animation and emoji on.
pub fn get_encouragement_settings(rows: &Vec<Setting>) -> (r: EncouragementSettings)
    ensures
        r.enabled == flag_value(setting_value(rows@, "encouragement_enabled"@), true),
        r.frequency@ == text_value(setting_value(rows@, "encouragement_frequency"@), "normal"@),
        r.style@ == text_value(setting_value(rows@, "encouragement_style"@), "warm"@),
        r.celebration_animation == flag_value(setting_value(rows@, "encouragement_celebration_animation"@), true),
        r.emoji_enabled == flag_value(setting_value(rows@, "encouragement_emoji_enabled"@), true),
{
    let enabled = lookup_setting(rows, "encouragement_enabled");
    let frequency = lookup_setting(rows, "encouragement_frequency");
    let style = lookup_setting(rows, "encouragement_style");
    let animation = lookup_setting(rows, "encouragement_celebration_animation");
    let emoji = lookup_setting(rows, "encouragement_emoji_enabled");
    EncouragementSettings {
        enabled: flag_of(&enabled, true),
        frequency: match frequency {
            Some(s) => s,
            None => String::from_str("normal"),
        },
        style: current_style(&style),
        celebration_animation: flag_of(&animation, true),
        emoji_enabled: flag_of(&emoji, true),
    }
}

/// The text of a flag.
pub open spec fn flag_text(b: bool) -> Seq<char> {
    if b {
        "true"@
    } else {
        "false"@
    }
}

fn flag_string(b: bool) -> (r: String)
    ensures
        r@ == flag_text(b),
{
    if b {
        String::from_str("true")
    } else {
        String::from_str("false")
    }
}

/// The settings rows that an update of the preferences writes, in order:
/// enabled, frequency, style, animation, emoji, each only when given.
pub open spec fn update_rows(input: UpdateEncouragementSettingsInput) -> Seq<(Seq<char>, Seq<char>)> {
    let a = match input.enabled {
        Some(b) => seq![("encouragement_enabled"@, flag_text(b))],
        None => Seq::empty(),
    };
    let b = match input.frequency {
        Some(f) => seq![("encouragement_frequency"@, f@)],
        None => Seq::empty(),
    };
    let c = match input.style {
        Some(s) => seq![("encouragement_style"@, s@)],
        None => Seq::empty(),
    };
    let d = match input.celebration_animation {
        Some(x) => seq![("encouragement_celebration_animation"@, flag_text(x))],
        None => Seq::empty(),
    };
    let e = match input.emoji_enabled {
        Some(x) => seq![("encouragement_emoji_enabled"@, flag_text(x))],
        None => Seq::empty(),
    };
    a + b + c + d + e
}

/// The rows of a settings list as (key, value) texts.
pub open spec fn row_views(rows: Seq<Setting>) -> Seq<(Seq<char>, Seq<char>)> {
    rows.map_values(|s: Setting| (s.key@, s.value@))
}

fn push_row(rows: &mut Vec<Setting>, key: &str, value: String)
    ensures
        row_views(final(rows)@) == row_views(old(rows)@).push((key@, value@)),
{
    let ghost before = rows@;
    rows.push(Setting { key: String::from_str(key), value });
    proof {
        assert(row_views(rows@) =~= row_views(before).push((key@, value@)));
    }
}

/// The writes of an update of the preferences; a frequency other than
/// `aggressive`, `normal` or `sparse`, and a style other than `warm`,
/// `professional` or `minimal`, are refused, in that order.
pub fn update_encouragement_settings(input: &UpdateEncouragementSettingsInput) -> (r: AppResult<Vec<Setting>>)
    ensures
        ({
            let bad_freq = input.frequency is Some && !(input.frequency->0@ == "aggressive"@ || input.frequency->0@
                == "normal"@ || input.frequency->0@ == "sparse"@);
            let bad_style = input.style is Some && !(input.style->0@ == "warm"@ || input.style->0@ == "professional"@
                || input.style->0@ == "minimal"@);
            &&& bad_freq ==> r is Err && is_param_err(r->Err_0, "frequency 必须为 aggressive/normal/sparse"@)
            &&& !bad_freq && bad_style ==> r is Err && is_param_err(r->Err_0, "style 必须为 warm/professional/minimal"@)
            &&& !bad_freq && !bad_style ==> r is Ok && row_views(r->Ok_0@) == update_rows(*input)
        }),
{
    if let Some(f) = &input.frequency {
        if !(str_eq(f.as_str(), "aggressive") || str_eq(f.as_str(), "normal") || str_eq(f.as_str(), "sparse")) {
            return Err(AppError::Param(String::from_str("frequency 必须为 aggressive/normal/sparse")));
        }
    }
    if let Some(s) = &input.style {
        if !(str_eq(s.as_str(), "warm") || str_eq(s.as_str(), "professional") || str_eq(s.as_str(), "minimal")) {
            return Err(AppError::Param(String::from_str("style 必须为 warm/professional/minimal")));
        }
    }
    let mut rows: Vec<Setting> = Vec::new();
    if let Some(b) = input.enabled {
        push_row(&mut rows, "encouragement_enabled", flag_string(b));
    }
    if let Some(f) = &input.frequency {
        push_row(&mut rows, "encouragement_frequency", f.clone());
    }
    if let Some(s) = &input.style {
        push_row(&mut rows, "encouragement_style", s.clone());
    }
    if let Some(b) = input.celebration_animation {
        push_row(&mut rows, "encouragement_celebration_animation", flag_string(b));
    }
    if let Some(b) = input.emoji_enabled {
        push_row(&mut rows, "encouragement_emoji_enabled", flag_string(b));
    }
    proof {
        assert(row_views(rows@) =~= update_rows(*input));
    }
    Ok(rows)
}

} // verus!
