//! Cron expressions, as the crate `saffron` reads them, over times in
//! milliseconds since the Unix epoch.

use crate::cli::{all_digits, digit_value, is_digit, number_of};
use vstd::prelude::*;

verus! {

/// Whether the expression can ever match a time; `None` where the text is no
/// cron expression.
pub uninterp spec fn cron_ever(expr: Seq<char>) -> Option<bool>;

/// Whether the expression matches the minute of the time `at`.
pub uninterp spec fn cron_matches(expr: Seq<char>, at: i64) -> bool;

/// The first matching minute that is not before the minute of `from`.
pub uninterp spec fn cron_next_from(expr: Seq<char>, from: i64) -> Option<i64>;

/// The first matching minute that is after the minute of `after`.
pub uninterp spec fn cron_next_after(expr: Seq<char>, after: i64) -> Option<i64>;

/// Whether the text is written in ASCII characters alone.
pub open spec fn plain(expr: Seq<char>) -> bool {
    forall|i: int| 0 <= i < expr.len() ==> '\0' <= #[trigger] expr[i] <= '\u{7f}'
}

/// Whether the character is a decimal digit.
pub open spec fn is_numeral(c: char) -> bool {
    '0' <= c <= '9'
}

/// From `i` to `j` the text reads `L-`, digits and `W`: a number of days
/// before the last day of the month, taken to the nearest weekday.
pub open spec fn offset_weekday_at(expr: Seq<char>, i: int, j: int) -> bool {
    &&& 0 <= i
    &&& i + 2 < j < expr.len()
    &&& expr[i] == 'L'
    &&& expr[i + 1] == '-'
    &&& forall|k: int| i + 2 <= k < j ==> is_numeral(#[trigger] expr[k])
    &&& expr[j] == 'W'
}

/// Somewhere the text reads `L-`, digits and `W`. A cron expression can
/// hold that as its day of the month only.
pub open spec fn has_offset_weekday(expr: Seq<char>) -> bool {
    exists|i: int, j: int| offset_weekday_at(expr, i, j)
}

/// Whether the character ends an item of a cron expression: a blank, a tab
/// or a comma.
pub open spec fn is_break(c: char) -> bool {
    c == ' ' || c == '\t' || c == ','
}

/// Where the item begins that reaches up to the place `at`.
pub open spec fn item_start(expr: Seq<char>, at: int) -> int
    decreases at,
{
    if at <= 0 {
        0
    } else if is_break(expr[at - 1]) {
        at
    } else {
        item_start(expr, at - 1)
    }
}

/// The text reads as two numbers of one to three digits each with `-`
/// between them at the place `dash`, the first no greater than the second.
pub open spec fn rising_at(part: Seq<char>, dash: int) -> bool {
    &&& 1 <= dash <= 3
    &&& 1 <= part.len() - dash - 1 <= 3
    &&& part[dash] == '-'
    &&& all_digits(part.subrange(0, dash))
    &&& all_digits(part.subrange(dash + 1, part.len() as int))
    &&& number_of(part.subrange(0, dash)) <= number_of(
        part.subrange(dash + 1, part.len() as int),
    )
}

/// The text reads as a range of two numbers that does not fall.
pub open spec fn rising_range(part: Seq<char>) -> bool {
    exists|dash: int| rising_at(part, dash)
}

/// At the place `at` stands the `/` of a step, and what the item holds
/// before it has a `-` and is no range of numbers that is seen not to fall:
/// the range may wrap round, from a later value to an earlier one.
pub open spec fn wrapped_step_at(expr: Seq<char>, at: int) -> bool {
    &&& 0 <= at < expr.len()
    &&& expr[at] == '/'
    &&& expr.subrange(item_start(expr, at), at).contains('-')
    &&& !rising_range(expr.subrange(item_start(expr, at), at))
}

/// Somewhere the text holds a step over a range that may wrap round.
pub open spec fn has_wrapped_step(expr: Seq<char>) -> bool {
    exists|at: int| wrapped_step_at(expr, at)
}

/// The texts whose times this library asks for: written in ASCII, without a
/// day counted back from the end of the month and taken to the nearest
/// weekday, and without a step over a range that may wrap round. On the
/// others `saffron` cannot be relied to answer.
pub open spec fn walkable(expr: Seq<char>) -> bool {
    plain(expr) && !has_offset_weekday(expr) && !has_wrapped_step(expr)
}

/// Where the digits that begin at `from` end.
fn numerals_end(expr: &str, from: usize) -> (j: usize)
    requires
        from <= expr@.len(),
    ensures
        from <= j <= expr@.len(),
        forall|k: int| from <= k < j ==> is_numeral(#[trigger] expr@[k]),
        j < expr@.len() ==> !is_numeral(expr@[j as int]),
{
    let n = expr.unicode_len();
    let mut j: usize = from;
    while j < n
        invariant
            from <= j <= n,
            n == expr@.len(),
            forall|k: int| from <= k < j ==> is_numeral(#[trigger] expr@[k]),
        decreases n - j,
    {
        let c = expr.get_char(j);
        if !('0' <= c && c <= '9') {
            return j;
        }
        j += 1;
    }
    j
}

/// Whether a day counted back from the end of the month and taken to the
/// nearest weekday is written at `i`.
fn offset_weekday_from(expr: &str, i: usize) -> (r: bool)
    requires
        i < expr@.len(),
    ensures
        r == exists|j: int| offset_weekday_at(expr@, i as int, j),
{
    let n = expr.unicode_len();
    if n - i < 4 || expr.get_char(i) != 'L' || expr.get_char(i + 1) != '-' {
        return false;
    }
    let j = numerals_end(expr, i + 2);
    if j > i + 2 && j < n && expr.get_char(j) == 'W' {
        proof {
            assert(offset_weekday_at(expr@, i as int, j as int));
        }
        true
    } else {
        proof {
            assert forall|m: int| !offset_weekday_at(expr@, i as int, m) by {
                if offset_weekday_at(expr@, i as int, m) {
                    if m < j {
                        assert(is_numeral(expr@[m]));
                    } else if m > j {
                        assert(is_numeral(expr@[j as int]));
                    }
                }
            }
        }
        false
    }
}

/// Where the item begins that reaches up to the place `at`.
fn start_of_item(expr: &str, at: usize) -> (a: usize)
    requires
        at <= expr@.len(),
    ensures
        a == item_start(expr@, at as int),
        a <= at,
{
    let mut k: usize = at;
    while k > 0
        invariant
            k <= at,
            at <= expr@.len(),
            item_start(expr@, at as int) == item_start(expr@, k as int),
        decreases k,
    {
        let c = expr.get_char(k - 1);
        if c == ' ' || c == '\t' || c == ',' {
            return k;
        }
        k -= 1;
    }
    k
}

/// The place of the first `-` from `from` up to `to`.
fn first_dash(expr: &str, from: usize, to: usize) -> (r: Option<usize>)
    requires
        from <= to <= expr@.len(),
    ensures
        match r {
            Some(d) => from <= d < to && expr@[d as int] == '-' && forall|k: int|
                from <= k < d ==> expr@[k] != '-',
            None => forall|k: int| from <= k < to ==> expr@[k] != '-',
        },
{
    let mut d: usize = from;
    while d < to
        invariant
            from <= d <= to,
            to <= expr@.len(),
            forall|k: int| from <= k < d ==> expr@[k] != '-',
        decreases to - d,
    {
        if expr.get_char(d) == '-' {
            return Some(d);
        }
        d += 1;
    }
    None
}

/// The number that the text spells from `from` up to `to`, where that is one
/// to three digits.
fn small_number(expr: &str, from: usize, to: usize) -> (r: Option<u32>)
    requires
        from <= to <= expr@.len(),
    ensures
        r is Some <==> 1 <= to - from <= 3 && all_digits(expr@.subrange(from as int, to as int)),
        r matches Some(n) ==> n == number_of(expr@.subrange(from as int, to as int)),
{
    let ghost digits = expr@.subrange(from as int, to as int);
    if to - from < 1 || to - from > 3 {
        return None;
    }
    let mut acc: u32 = 0;
    let mut i: usize = from;
    proof {
        assert(digits.subrange(0, 0) =~= Seq::<char>::empty());
    }
    while i < to
        invariant
            from <= i <= to,
            to - from <= 3,
            to <= expr@.len(),
            digits == expr@.subrange(from as int, to as int),
            all_digits(digits.subrange(0, i - from)),
            acc == number_of(digits.subrange(0, i - from)),
            i - from == 0 ==> acc == 0,
            i - from == 1 ==> acc < 10,
            i - from == 2 ==> acc < 100,
            i - from == 3 ==> acc < 1000,
        decreases to - i,
    {
        let c = expr.get_char(i);
        let ghost seen = digits.subrange(0, i - from);
        let ghost more = digits.subrange(0, i - from + 1);
        proof {
            assert(digits[i - from] == c);
            assert(more.drop_last() =~= seen);
            assert(more.last() == c);
        }
        if !('0' <= c && c <= '9') {
            proof {
                assert(!is_digit(digits[i - from]));
            }
            return None;
        }
        let value: u32 = c as u32 - '0' as u32;
        proof {
            assert(value == digit_value(c));
            assert forall|k: int| 0 <= k < more.len() implies is_digit(#[trigger] more[k]) by {
                if k < seen.len() {
                    assert(seen[k] == more[k]);
                }
            }
        }
        acc = acc * 10 + value;
        i += 1;
    }
    proof {
        assert(digits.subrange(0, to - from) =~= digits);
    }
    Some(acc)
}

/// Whether the step whose `/` stands at `at` is over a range that may wrap
/// round.
fn step_is_wrapped(expr: &str, at: usize) -> (r: bool)
    requires
        at < expr@.len(),
        expr@[at as int] == '/',
    ensures
        r == wrapped_step_at(expr@, at as int),
{
    let a = start_of_item(expr, at);
    let ghost part = expr@.subrange(a as int, at as int);
    let d = match first_dash(expr, a, at) {
        None => {
            proof {
                if part.contains('-') {
                    let k = choose|k: int| 0 <= k < part.len() && part[k] == '-';
                    assert(expr@[a + k] == '-');
                }
            }
            return false;
        },
        Some(d) => d,
    };
    let ghost dash = d - a;
    proof {
        assert(part[dash] == '-');
        assert(part.contains('-'));
        assert(part.subrange(0, dash) =~= expr@.subrange(a as int, d as int));
        assert(part.subrange(dash + 1, part.len() as int) =~= expr@.subrange(
            d + 1,
            at as int,
        ));
        // no other place of the part can be the dash of a range of numbers
        assert forall|e: int| rising_at(part, e) implies e == dash by {
            if e > dash {
                assert(part.subrange(0, e)[dash] == '-');
                assert(is_digit(part.subrange(0, e)[dash]));
            } else if e < dash {
                assert(expr@[a + e] == '-');
            }
        }
    }
    let low = small_number(expr, a, d);
    let high = small_number(expr, d + 1, at);
    match (low, high) {
        (Some(x), Some(y)) => {
            if x <= y {
                proof {
                    assert(rising_at(part, dash));
                }
                false
            } else {
                true
            }
        },
        _ => true,
    }
}

/// Whether the text is one whose times this library asks for.
pub fn is_walkable(expr: &str) -> (r: bool)
    ensures
        r == walkable(expr@),
{
    if !expr.is_ascii() {
        return false;
    }
    let n = expr.unicode_len();
    let mut i: usize = 0;
    while i < n
        invariant
            i <= n,
            n == expr@.len(),
            plain(expr@),
            forall|a: int, j: int| 0 <= a < i ==> !offset_weekday_at(expr@, a, j),
            forall|a: int| 0 <= a < i ==> !wrapped_step_at(expr@, a),
        decreases n - i,
    {
        if offset_weekday_from(expr, i) {
            return false;
        }
        if expr.get_char(i) == '/' && step_is_wrapped(expr, i) {
            return false;
        }
        i += 1;
    }
    true
}

/// Whether the time is on a full minute.
pub open spec fn on_minute(time: i64) -> bool {
    time % 60_000 == 0
}

/// `saffron::Cron::any` on the parsed expression: whether any time at all can
/// match, which a day of the month that no chosen month has rules out.
/// `None` where `str::parse::<saffron::Cron>` rejects the text. The text is
/// to be walkable. The parser cuts a text with other characters than those
/// of ASCII at a place that may lie inside one. A step over a range that
/// wraps round, of days or months, sets a value above the greatest, which
/// the crate refuses when it reads the text or meets when it looks for a
/// time.
#[verifier::external_body]
pub(crate) fn ever_matches(expr: &str) -> (r: Option<bool>)
    requires
        walkable(expr@),
    ensures
        r == cron_ever(expr@),
{
    expr.parse::<saffron::Cron>().ok().map(|c| c.any())
}

/// `saffron::Cron::contains` at the given time, and `false` where the text
/// is no cron expression or the time is outside what `chrono` can hold. The
/// text is to be walkable, as for `ever_matches`; and on a day counted back
/// from the end of the month and taken to the nearest weekday the crate
/// subtracts below zero.
#[verifier::external_body]
pub(crate) fn matches_at(expr: &str, at: i64) -> (r: bool)
    requires
        walkable(expr@),
    ensures
        r == cron_matches(expr@, at),
{
    match (expr.parse::<saffron::Cron>(),
        chrono::DateTime::<chrono::Utc>::from_timestamp_millis(at)) {
        (Ok(c), Some(t)) => c.contains(t),
        _ => false,
    }
}

/// `saffron::Cron::next_from`: the given time cut down to its minute where
/// the expression matches it, else the next minute that matches; either is a
/// full minute. `None` where the text is no cron expression, where it can
/// never match, or where a time is outside what `chrono` can hold. The text is
/// to be walkable, as for `matches_at`.
#[verifier::external_body]
pub(crate) fn next_from(expr: &str, from: i64) -> (r: Option<i64>)
    requires
        walkable(expr@),
    ensures
        r == cron_next_from(expr@, from),
        r matches Some(n) ==> on_minute(n),
{
    let cron = expr.parse::<saffron::Cron>().ok()?;
    let start = chrono::DateTime::<chrono::Utc>::from_timestamp_millis(from)?;
    cron.next_from(start).map(|t| t.timestamp_millis())
}

/// `saffron::Cron::next_after`: the next minute after that of the given time
/// that the expression matches, which is a full minute and later than the
/// given time. `None` where the text is no cron expression, where it can
/// never match, or where a time is outside what `chrono` can hold. The text is
/// to be walkable, as for `matches_at`.
#[verifier::external_body]
pub(crate) fn next_after(expr: &str, after: i64) -> (r: Option<i64>)
    requires
        walkable(expr@),
    ensures
        r == cron_next_after(expr@, after),
        r matches Some(n) ==> n > after && on_minute(n),
{
    let cron = expr.parse::<saffron::Cron>().ok()?;
    let start = chrono::DateTime::<chrono::Utc>::from_timestamp_millis(after)?;
    cron.next_after(start).map(|t| t.timestamp_millis())
}

} // verus!
