//! How long something takes, in words.

use crate::text::{decimal, digit, push_decimal};
use vstd::prelude::*;

verus! {

/// A number below a hundred with two digits.
pub open spec fn two_digits(n: int) -> Seq<char> {
    seq![digit(n / 10), digit(n % 10)]
}

/// A number of seconds as hours, minutes and seconds, or as minutes and
/// seconds below an hour.
pub open spec fn duration_text(total: int) -> Seq<char> {
    if total >= 3600 {
        decimal(total / 3600) + seq![':'] + two_digits((total % 3600) / 60) + seq![':']
            + two_digits(total % 60)
    } else {
        decimal(total / 60) + seq![':'] + two_digits(total % 60)
    }
}

fn push_two_digits(out: &mut String, n: u64)
    requires
        n < 100,
    ensures
        final(out)@ == old(out)@ + two_digits(n as int),
{
    let ghost before = out@;
    if n < 10 {
        out.push('0');
        push_decimal(out, n as u128);
        assert(out@ =~= before + two_digits(n as int));
    } else {
        push_decimal(out, n as u128);
        assert(decimal(n as int) =~= two_digits(n as int)) by {
            assert(decimal(n as int / 10) =~= seq![digit(n as int / 10)]);
        }
    }
}

/// A number of seconds in words.
pub fn fmt_duration(total: u64) -> (r: String)
    ensures
        r@ == duration_text(total as int),
{
    let mut r: String = String::new();
    if total >= 3600 {
        push_decimal(&mut r, (total / 3600) as u128);
        r.push(':');
        push_two_digits(&mut r, (total % 3600) / 60);
        r.push(':');
        push_two_digits(&mut r, total % 60);
    } else {
        push_decimal(&mut r, (total / 60) as u128);
        r.push(':');
        push_two_digits(&mut r, total % 60);
    }
    assert(r@ =~= duration_text(total as int));
    r
}

/// A duration is written as minutes and seconds, with hours in front from one
/// hour on. The parts add up to it, minutes behind hours and seconds are below
/// sixty and have two digits.
pub proof fn law_duration_adds_up(total: int)
    requires
        total >= 0,
    ensures
        exists|hours: int, minutes: int, seconds: int|
            {
                &&& total == 3600 * hours + 60 * minutes + seconds
                &&& 0 <= hours && 0 <= minutes < 60 && 0 <= seconds < 60
                &&& duration_text(total) == #[trigger] written_duration(hours, minutes, seconds)
            },
{
    let hours = total / 3600;
    let minutes = (total % 3600) / 60;
    let seconds = total % 60;
    assert(total == 3600 * hours + 60 * minutes + seconds);
    assert(duration_text(total) =~= written_duration(hours, minutes, seconds));
}

/// Hours, minutes and seconds as they are written; no hours are left out.
pub open spec fn written_duration(hours: int, minutes: int, seconds: int) -> Seq<char> {
    let last = seq![':', digit(seconds / 10), digit(seconds % 10)];
    if hours == 0 {
        decimal(minutes) + last
    } else {
        decimal(hours) + seq![':', digit(minutes / 10), digit(minutes % 10)] + last
    }
}

} // verus!
