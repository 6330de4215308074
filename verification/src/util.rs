use chrono::Datelike;
use rand::Rng;
use vstd::prelude::*;

use crate::error::{AppError, AppResult};

verus! {

/// Day number of the earliest date the calendar library can represent
/// (January 1, 262144 BCE).
pub const MIN_DAY: i32 = -95746129;

/// Day number of the latest date the calendar library can represent
/// (December 31, 262142 CE).
pub const MAX_DAY: i32 = 95745399;

/// A day number that denotes a representable calendar date.
pub open spec fn valid_day(d: int) -> bool {
    MIN_DAY <= d <= MAX_DAY
}

/// What `chrono` makes of a `yyyy-MM-dd` text: the day number of the date,
/// or the text of the parse error.
pub uninterp spec fn spec_parse_ymd(s: Seq<char>) -> Result<int, Seq<char>>;

/// The `yyyy-MM-dd` text that `chrono` writes for a day number.
pub uninterp spec fn spec_format_ymd(day: int) -> Seq<char>;

/// The weekday of a day number, numbered from Sunday (0) to Saturday (6):
/// day 1 (January 1 of the year 1) is a Monday, and the weekdays repeat
/// every seven days.
pub open spec fn weekday_of(day: int) -> int {
    day % 7
}

/// The day of the month (1 to 31) of a day number, as `chrono` reports it.
pub uninterp spec fn spec_day_of_month(day: int) -> int;

/// A character with the Unicode `White_Space` property, which is what
/// `char::is_whitespace` tests and what `str::trim` removes.
pub open spec fn is_white_space(c: char) -> bool {
    ||| '\u{9}' <= c <= '\u{d}'
    ||| c == ' '
    ||| c == '\u{85}'
    ||| c == '\u{a0}'
    ||| c == '\u{1680}'
    ||| '\u{2000}' <= c <= '\u{200a}'
    ||| c == '\u{2028}'
    ||| c == '\u{2029}'
    ||| c == '\u{202f}'
    ||| c == '\u{205f}'
    ||| c == '\u{3000}'
}

/// A text without its leading white space.
pub open spec fn trim_start(s: Seq<char>) -> Seq<char>
    decreases s.len(),
{
    if s.len() > 0 && is_white_space(s[0]) {
        trim_start(s.drop_first())
    } else {
        s
    }
}

/// A text without its trailing white space.
pub open spec fn trim_end(s: Seq<char>) -> Seq<char>
    decreases s.len(),
{
    if s.len() > 0 && is_white_space(s.last()) {
        trim_end(s.drop_last())
    } else {
        s
    }
}

/// What `str::trim` returns for a text: the text without its leading and
/// trailing white space.
pub open spec fn spec_trim(s: Seq<char>) -> Seq<char> {
    trim_end(trim_start(s))
}

/// What `str::to_lowercase` returns for a text.
pub uninterp spec fn spec_to_lowercase(s: Seq<char>) -> Seq<char>;

/// Calls `chrono::NaiveDate::parse_from_str(s, "%Y-%m-%d")`; a date becomes
/// its day number (`num_days_from_ce`), an error its display text. Claimed:
/// the result is the named parse result, and a parsed date lies in the
/// representable range.
#[verifier::external_body]
pub(crate) fn parse_ymd(s: &str) -> (r: Result<i32, String>)
    ensures
        r is Ok ==> spec_parse_ymd(s@) == Ok::<int, Seq<char>>(r->Ok_0 as int) && valid_day(r->Ok_0 as int),
        r is Err ==> spec_parse_ymd(s@) == Err::<int, Seq<char>>(r->Err_0@),
{
    match chrono::NaiveDate::parse_from_str(s, "%Y-%m-%d") {
        Ok(d) => Ok(d.num_days_from_ce()),
        Err(e) => Err(e.to_string()),
    }
}

/// Calls `chrono::NaiveDate::from_num_days_from_ce_opt` and formats the date
/// with `"%Y-%m-%d"`. Claimed: the result is the named text; the date exists
/// for every day number in the representable range.
#[verifier::external_body]
pub(crate) fn format_ymd(day: i32) -> (r: String)
    requires
        valid_day(day as int),
    ensures
        r@ == spec_format_ymd(day as int),
{
    chrono::NaiveDate::from_num_days_from_ce_opt(day).unwrap().format("%Y-%m-%d").to_string()
}

/// Calls `Weekday::num_days_from_sunday` on the weekday of a day number.
/// Claimed: the result is the weekday counted from day 1, a Monday, in the
/// proleptic Gregorian calendar that `chrono` uses.
#[verifier::external_body]
pub(crate) fn weekday_from_sunday(day: i32) -> (r: u8)
    requires
        valid_day(day as int),
    ensures
        r as int == weekday_of(day as int),
{
    chrono::NaiveDate::from_num_days_from_ce_opt(day).unwrap().weekday().num_days_from_sunday() as u8
}

/// Calls `Datelike::day` on the date of a day number. Claimed: the result is
/// the named day of the month, between 1 and 31.
#[verifier::external_body]
pub(crate) fn day_of_month(day: i32) -> (r: u8)
    requires
        valid_day(day as int),
    ensures
        r as int == spec_day_of_month(day as int),
        1 <= r <= 31,
{
    chrono::NaiveDate::from_num_days_from_ce_opt(day).unwrap().day() as u8
}

/// Whether a character is white space (`is_white_space`).
pub fn is_white_space_char(c: char) -> (r: bool)
    ensures
        r == is_white_space(c),
{
    ('\u{9}' <= c && c <= '\u{d}') || c == ' ' || c == '\u{85}' || c == '\u{a0}' || c == '\u{1680}' || ('\u{2000}'
        <= c && c <= '\u{200a}') || c == '\u{2028}' || c == '\u{2029}' || c == '\u{202f}' || c == '\u{205f}' || c
        == '\u{3000}'
}

/// A text without its leading and trailing white space, as `str::trim`
/// gives it.
pub fn trim_str(s: &str) -> (r: &str)
    ensures
        r@ == spec_trim(s@),
        r@.len() <= s@.len(),
{
    let n = s.unicode_len();
    let mut a: usize = 0;
    assert(s@.subrange(0, n as int) =~= s@);
    while a < n
        invariant
            n == s@.len(),
            a <= n,
            trim_start(s@) == trim_start(s@.subrange(a as int, n as int)),
        ensures
            a <= n,
            trim_start(s@) == trim_start(s@.subrange(a as int, n as int)),
            a == n || !is_white_space(s@[a as int]),
        decreases n - a,
    {
        if !is_white_space_char(s.get_char(a)) {
            break;
        }
        let ghost x = s@.subrange(a as int, n as int);
        assert(x.drop_first() =~= s@.subrange(a + 1, n as int));
        a = a + 1;
    }
    let ghost t = s@.subrange(a as int, n as int);
    assert(trim_start(t) == t) by {
        if t.len() > 0 {
            assert(t[0] == s@[a as int]);
        }
    }
    let mut b: usize = n;
    while b > a
        invariant
            n == s@.len(),
            a <= b <= n,
            t == s@.subrange(a as int, n as int),
            trim_end(t) == trim_end(s@.subrange(a as int, b as int)),
        ensures
            a <= b <= n,
            trim_end(t) == trim_end(s@.subrange(a as int, b as int)),
            b == a || !is_white_space(s@[b - 1]),
        decreases b - a,
    {
        if !is_white_space_char(s.get_char(b - 1)) {
            break;
        }
        let ghost x = s@.subrange(a as int, b as int);
        assert(x.drop_last() =~= s@.subrange(a as int, b - 1));
        b = b - 1;
    }
    let ghost u = s@.subrange(a as int, b as int);
    assert(trim_end(u) == u) by {
        if u.len() > 0 {
            assert(u.last() == s@[b - 1]);
        }
    }
    s.substring_char(a, b)
}

/// Calls `str::to_lowercase`. Claimed: the result is the named lowercase text.
#[verifier::external_body]
pub(crate) fn to_lowercase(s: &str) -> (r: String)
    ensures
        r@ == spec_to_lowercase(s@),
{
    s.to_lowercase()
}

/// The current local time as `yyyy-MM-ddTHH:mm:ss`, from `chrono::Local::now`.
/// Nothing is claimed of the text: it depends on the clock.
#[verifier::external_body]
pub fn now_local_ts() -> String {
    chrono::Local::now().format("%Y-%m-%dT%H:%M:%S").to_string()
}

/// A fresh random identifier from `uuid::Uuid::new_v4`, in its hyphenated
/// text form. Claimed: that form is always 36 characters long.
#[verifier::external_body]
pub fn new_uuid() -> (r: String)
    ensures
        r@.len() == 36,
{
    uuid::Uuid::new_v4().to_string()
}

/// A random number below `n`, from `rand::thread_rng().gen_range(0..n)`.
/// Claimed: the number is below `n` (`gen_range` panics on an empty range,
/// which `n > 0` rules out).
#[verifier::external_body]
pub(crate) fn random_below(n: u128) -> (r: u128)
    requires
        n > 0,
    ensures
        r < n,
{
    rand::thread_rng().gen_range(0..n)
}

/// Text equality of two string slices.
pub fn str_eq(a: &str, b: &str) -> (r: bool)
    ensures
        r == (a@ == b@),
{
    let x = String::from_str(a);
    let y = String::from_str(b);
    x == y
}

/// Parses a `yyyy-MM-dd` date into its day number; an invalid text is a
/// parameter error that names the field.
pub fn parse_date_or_param(s: &str, label: &str) -> (r: AppResult<i32>)
    ensures
        r is Ok <==> spec_parse_ymd(s@) is Ok,
        r is Ok ==> spec_parse_ymd(s@) == Ok::<int, Seq<char>>(r->Ok_0 as int) && valid_day(r->Ok_0 as int),
        r is Err ==> r->Err_0 == AppError::Param(r->Err_0->Param_0) && r->Err_0->Param_0@ == label@ + "日期格式必须为 yyyy-MM-dd"@,
{
    match parse_ymd(s) {
        Ok(d) => Ok(d),
        Err(_) => Err(AppError::Param(String::from_str(label).concat("日期格式必须为 yyyy-MM-dd"))),
    }
}

} // verus!

verus! {

/// The character of a decimal digit.
pub open spec fn digit_char(d: int) -> char {
    if d == 0 { '0' }
    else if d == 1 { '1' }
    else if d == 2 { '2' }
    else if d == 3 { '3' }
    else if d == 4 { '4' }
    else if d == 5 { '5' }
    else if d == 6 { '6' }
    else if d == 7 { '7' }
    else if d == 8 { '8' }
    else { '9' }
}

/// The decimal text of a natural number, without leading zeros.
pub open spec fn decimal(n: nat) -> Seq<char>
    decreases n,
{
    if n < 10 {
        seq![digit_char(n as int)]
    } else {
        decimal(n / 10).push(digit_char((n % 10) as int))
    }
}

fn digit_str(d: u64) -> (r: &'static str)
    requires
        d < 10,
    ensures
        r@ == seq![digit_char(d as int)],
{
    proof {
        reveal_strlit("0");
        reveal_strlit("1");
        reveal_strlit("2");
        reveal_strlit("3");
        reveal_strlit("4");
        reveal_strlit("5");
        reveal_strlit("6");
        reveal_strlit("7");
        reveal_strlit("8");
        reveal_strlit("9");
    }
    if d == 0 { "0" }
    else if d == 1 { "1" }
    else if d == 2 { "2" }
    else if d == 3 { "3" }
    else if d == 4 { "4" }
    else if d == 5 { "5" }
    else if d == 6 { "6" }
    else if d == 7 { "7" }
    else if d == 8 { "8" }
    else { "9" }
}

/// The decimal text of a number.
pub fn to_decimal(n: u64) -> (r: String)
    ensures
        r@ == decimal(n as nat),
    decreases n,
{
    if n < 10 {
        String::from_str(digit_str(n))
    } else {
        let head = to_decimal(n / 10);
        head.concat(digit_str(n % 10))
    }
}

/// A copy of an optional text.
pub fn copy_opt_string(o: &Option<String>) -> (r: Option<String>)
    ensures
        r == *o,
{
    match o {
        Some(s) => Some(s.clone()),
        None => None,
    }
}

} // verus!

verus! {

/// The decimal text of an integer, with a minus sign when negative.
pub open spec fn int_text(i: int) -> Seq<char> {
    if i < 0 {
        "-"@ + decimal((-i) as nat)
    } else {
        decimal(i as nat)
    }
}

/// The decimal text of an integer.
pub fn int_to_text(i: i64) -> (r: String)
    ensures
        r@ == int_text(i as int),
{
    if i < 0 {
        let mag: u64 = ((-(i + 1)) as u64) + 1;
        String::from_str("-").concat(to_decimal(mag).as_str())
    } else {
        to_decimal(i as u64)
    }
}

/// The text of a non-negative amount given in hundredths, as a decimal
/// number without trailing zeros (`250` is `2.5`, `200` is `2`).
pub open spec fn unsigned_qty_text(q: nat) -> Seq<char> {
    let whole = q / 100;
    let frac = q % 100;
    if frac == 0 {
        decimal(whole)
    } else if frac % 10 == 0 {
        decimal(whole) + "."@ + seq![digit_char((frac / 10) as int)]
    } else {
        decimal(whole) + "."@ + seq![digit_char((frac / 10) as int), digit_char((frac % 10) as int)]
    }
}

/// The text of an amount given in hundredths, with a minus sign when negative.
pub open spec fn qty_text(q: int) -> Seq<char> {
    if q < 0 {
        "-"@ + unsigned_qty_text((-q) as nat)
    } else {
        unsigned_qty_text(q as nat)
    }
}

fn unsigned_qty_to_text(q: u64) -> (r: String)
    ensures
        r@ == unsigned_qty_text(q as nat),
{
    let whole = q / 100;
    let frac = q % 100;
    let head = to_decimal(whole);
    if frac == 0 {
        head
    } else if frac % 10 == 0 {
        head.concat(".").concat(digit_str(frac / 10))
    } else {
        let r = head.concat(".").concat(digit_str(frac / 10)).concat(digit_str(frac % 10));
        assert(r@ =~= decimal(whole as nat) + "."@ + seq![digit_char((frac / 10) as int), digit_char((frac % 10) as int)]);
        r
    }
}

/// The text of an amount given in hundredths.
pub fn qty_to_text(q: i64) -> (r: String)
    ensures
        r@ == qty_text(q as int),
{
    if q < 0 {
        let mag: u64 = ((-(q + 1)) as u64) + 1;
        String::from_str("-").concat(unsigned_qty_to_text(mag).as_str())
    } else {
        unsigned_qty_to_text(q as u64)
    }
}

} // verus!
