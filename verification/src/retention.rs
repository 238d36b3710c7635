//! The retention rule: which objects are roots.
//!
//! An object is a root, and is kept with all it depends on, when it entered
//! the store after the cutoff. The cutoff lies a number of days, the
//! retention window, before now.

use crate::clock::now_timestamp;
use crate::record::{Record, RecordStore};
use crate::select::{lemma_picked, picked};
use vstd::prelude::*;
use vstd::string::*;

verus! {

/// The retention window, in days, that is used where none is asked for.
pub const DEFAULT_WINDOW: i64 = 90;

/// The number of seconds in a day.
pub const SECONDS_PER_DAY: i64 = 86_400;

/// `c` is one of the digits `0` to `9`.
pub open spec fn is_digit(c: char) -> bool {
    48 <= c as int <= 57
}

/// Every character of `s` is a digit.
pub open spec fn all_digits(s: Seq<char>) -> bool {
    forall|i: int| 0 <= i < s.len() ==> is_digit(#[trigger] s[i])
}

/// The number that the digits `s` write in base ten.
pub open spec fn decimal(s: Seq<char>) -> int
    decreases s.len(),
{
    if s.len() == 0 {
        0
    } else {
        10 * decimal(s.drop_last()) + (s.last() as int - 48)
    }
}

/// `text` without a leading plus sign.
pub open spec fn unsigned(text: Seq<char>) -> Seq<char> {
    if text.len() > 0 && text[0] == '+' {
        text.skip(1)
    } else {
        text
    }
}

/// The retention window that `text` asks for: a positive whole number of
/// days, written in digits with at most a plus sign in front, and small
/// enough for an `i64`. Any other text asks for nothing.
pub open spec fn asks_for(text: Seq<char>) -> Option<i64> {
    let digits = unsigned(text);
    if digits.len() > 0 && all_digits(digits) && 0 < decimal(digits) <= i64::MAX {
        Some(decimal(digits) as i64)
    } else {
        None
    }
}

/// A retention window, and whether it replaces a request that was rejected.
#[derive(Debug, Clone, Copy, PartialEq, Eq)]
pub struct Retention {
    /// The window in days; always positive.
    pub days: i64,
    /// A window was asked for and could not be used, so `days` is the default.
    pub rejected: bool,
}

/// More digits never write a smaller number.
proof fn lemma_decimal_grows(s: Seq<char>, n: int)
    requires
        all_digits(s),
        0 <= n <= s.len(),
    ensures
        0 <= decimal(s.take(n)) <= decimal(s),
    decreases s.len() - n,
{
    lemma_decimal_nonnegative(s.take(n));
    if n < s.len() {
        lemma_decimal_grows(s, n + 1);
        assert(s.take(n + 1).drop_last() =~= s.take(n));
        assert(is_digit(s[n]));
    } else {
        assert(s.take(n) =~= s);
    }
}

proof fn lemma_decimal_nonnegative(s: Seq<char>)
    requires
        all_digits(s),
    ensures
        0 <= decimal(s),
    decreases s.len(),
{
    if s.len() > 0 {
        assert(is_digit(s.last()));
        assert(all_digits(s.drop_last())) by {
            assert forall|i: int| 0 <= i < s.drop_last().len() implies is_digit(
                #[trigger] s.drop_last()[i],
            ) by {
                assert(is_digit(s[i]));
            }
        }
        lemma_decimal_nonnegative(s.drop_last());
    }
}

/// Reads the retention window from the text that was given for it, if any.
/// Without a text the default window is used. A text that does not ask for a
/// positive number of days is rejected, and the default window is used in
/// its place.
pub fn retention_from(arg: Option<&str>) -> (retention: Retention)
    ensures
        retention.days > 0,
        match arg {
            None => retention.days == DEFAULT_WINDOW && !retention.rejected,
            Some(text) => match asks_for(text@) {
                Some(days) => retention.days == days && !retention.rejected,
                None => retention.days == DEFAULT_WINDOW && retention.rejected,
            },
        },
{
    let text = match arg {
        None => {
            return Retention { days: DEFAULT_WINDOW, rejected: false };
        },
        Some(text) => text,
    };
    let fallback = Retention { days: DEFAULT_WINDOW, rejected: true };
    let len: usize = text.unicode_len();
    let start: usize = if len > 0 && text.get_char(0) == '+' {
        1
    } else {
        0
    };
    let ghost digits = unsigned(text@);
    assert(digits =~= text@.subrange(start as int, len as int));
    if start == len {
        return fallback;
    }
    let mut value: i64 = 0;
    let mut i: usize = start;
    assert(digits.take(0) =~= Seq::<char>::empty());
    while i < len
        invariant
            start <= i <= len,
            arg == Some(text),
            fallback == (Retention { days: DEFAULT_WINDOW, rejected: true }),
            len == text@.len(),
            digits == unsigned(text@),
            digits == text@.subrange(start as int, len as int),
            all_digits(digits.take(i - start)),
            value == decimal(digits.take(i - start)),
            0 <= value,
        decreases len - i,
    {
        let c = text.get_char(i);
        let code: u32 = c as u32;
        proof {
            assert(digits[i - start] == c);
            assert(digits.take(i - start + 1).drop_last() =~= digits.take(i - start));
        }
        if code < 48 || code > 57 {
            assert(!is_digit(digits[i - start]));
            return fallback;
        }
        let d: i64 = (code - 48) as i64;
        if value > (i64::MAX - d) / 10 {
            proof {
                if all_digits(digits) {
                    lemma_decimal_grows(digits, i - start + 1);
                }
            }
            return fallback;
        }
        value = 10 * value + d;
        proof {
            assert forall|j: int| 0 <= j < i - start + 1 implies is_digit(
                #[trigger] digits.take(i - start + 1)[j],
            ) by {
                if j < i - start {
                    assert(is_digit(digits.take(i - start)[j]));
                }
            }
        }
        i += 1;
    }
    assert(digits.take(i - start) =~= digits);
    if value == 0 {
        return fallback;
    }
    Retention { days: value, rejected: false }
}

/// The cutoff that lies `days` days before `now`, both in seconds since the
/// epoch.
pub open spec fn cutoff_at(now: i64, days: i64) -> int {
    now - days * SECONDS_PER_DAY
}

/// The cutoff that lies `days` days before `now`.
pub fn cutoff_before(now: i64, days: i64) -> (cutoff: i128)
    ensures
        cutoff == cutoff_at(now, days),
{
    let day: i128 = SECONDS_PER_DAY as i128;
    assert(day == 86_400);
    let span: i128 = (days as i128) * day;
    (now as i128) - span
}

/// The cutoff that lies `days` days before the present moment.
pub fn cutoff_now(days: i64) -> (cutoff: i128)
    ensures
        exists|now: i64| cutoff == cutoff_at(now, days),
{
    let now = now_timestamp();
    let cutoff = cutoff_before(now, days);
    assert(cutoff == cutoff_at(now, days));
    cutoff
}

/// The record describes a root: its object entered the store after `cutoff`.
pub open spec fn is_root(r: Record, cutoff: int) -> bool {
    r.registration_time > cutoff
}

/// The roots among the objects `rs`, in rising order.
pub open spec fn roots_of(rs: Seq<Record>, cutoff: int) -> Seq<usize> {
    picked(rs.len() as int, |a: usize| is_root(rs[a as int], cutoff))
}

/// The objects of the store that are roots for `cutoff`, in rising order.
pub fn select_roots(store: &RecordStore, cutoff: i128) -> (roots: Vec<usize>)
    requires
        store.wf(),
    ensures
        roots@ == roots_of(store.kept(), cutoff as int),
        forall|a: usize|
            #[trigger] roots@.contains(a) <==> a < store.kept().len() && store.kept()[a as int].registration_time
                > cutoff,
{
    let ghost wanted = |a: usize| is_root(store.kept()[a as int], cutoff as int);
    let n: usize = store.len();
    let mut roots: Vec<usize> = Vec::new();
    let mut a: usize = 0;
    while a < n
        invariant
            a <= n,
            n == store.kept().len(),
            store.wf(),
            wanted == |a: usize| is_root(store.kept()[a as int], cutoff as int),
            roots@ == picked(a as int, wanted),
        decreases n - a,
    {
        if (store.registration_time(a) as i128) > cutoff {
            roots.push(a);
        }
        a += 1;
    }
    proof {
        lemma_picked(n as int, wanted);
    }
    roots
}

} // verus!
