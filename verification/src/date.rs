//! Compact rendering of a time span as days, hours, minutes, seconds and
//! milliseconds.

use std::time::Duration;
use vstd::prelude::*;
use vstd::string::StringExecFns;

verus! {

/// The whole milliseconds that a `Duration` holds, as `Duration::as_millis`
/// reports them.
pub uninterp spec fn duration_millis(duration: Duration) -> nat;

/// `Duration::as_millis` of the standard library: the total number of whole
/// milliseconds in the duration. The contract only names that number; it
/// claims nothing else about it.
pub assume_specification[ Duration::as_millis ](duration: &Duration) -> (millis: u128)
    ensures
        millis == duration_millis(*duration),
;

/// The character for a single decimal digit.
pub open spec fn digit_char(digit: nat) -> char {
    if digit == 0 {
        '0'
    } else if digit == 1 {
        '1'
    } else if digit == 2 {
        '2'
    } else if digit == 3 {
        '3'
    } else if digit == 4 {
        '4'
    } else if digit == 5 {
        '5'
    } else if digit == 6 {
        '6'
    } else if digit == 7 {
        '7'
    } else if digit == 8 {
        '8'
    } else {
        '9'
    }
}

/// The decimal digits of `n`, most significant first, without leading zeros.
pub open spec fn decimal(n: nat) -> Seq<char>
    decreases n,
{
    if n < 10 {
        seq![digit_char(n)]
    } else {
        decimal(n / 10).push(digit_char(n % 10))
    }
}

/// One unit's share of the text: the count and then the unit's name, or
/// nothing at all when the count is zero.
pub open spec fn unit_text(count: nat, unit: Seq<char>) -> Seq<char> {
    if count > 0 {
        decimal(count) + unit
    } else {
        Seq::empty()
    }
}

/// The text for a span of `millis` milliseconds: whole days, then the hours,
/// minutes, seconds and milliseconds left over, each with its unit and
/// each left out when it is zero.
pub open spec fn span_text(millis: nat) -> Seq<char> {
    unit_text(millis / 86_400_000, seq!['d']) + unit_text(
        millis % 86_400_000 / 3_600_000,
        seq!['h'],
    ) + unit_text(millis % 3_600_000 / 60_000, seq!['m']) + unit_text(
        millis % 60_000 / 1_000,
        seq!['s'],
    ) + unit_text(millis % 1_000, seq!['m', 's'])
}

/// The one-character text of a decimal digit.
fn digit_str(digit: u128) -> (text: &'static str)
    requires
        digit < 10,
    ensures
        text@ == seq![digit_char(digit as nat)],
{
    proof {
        reveal_strlit("0");
        reveal_strlit("1");
        reveal_strlit("2");
        reveal_strlit("3");
        reveal_strlit("4");
        reveal_strlit("5");
        reveal_strlit("6");
        reveal_strlit("7");
        reveal_strlit("8");
        reveal_strlit("9");
    }
    let text = if digit == 0 {
        "0"
    } else if digit == 1 {
        "1"
    } else if digit == 2 {
        "2"
    } else if digit == 3 {
        "3"
    } else if digit == 4 {
        "4"
    } else if digit == 5 {
        "5"
    } else if digit == 6 {
        "6"
    } else if digit == 7 {
        "7"
    } else if digit == 8 {
        "8"
    } else {
        "9"
    };
    assert(text@ =~= seq![digit_char(digit as nat)]);
    text
}

/// Appends the decimal digits of `n` to `text`.
fn append_decimal(text: &mut String, n: u128)
    ensures
        final(text)@ == old(text)@ + decimal(n as nat),
    decreases n,
{
    if n >= 10 {
        append_decimal(text, n / 10);
    }
    let ghost before = text@;
    text.append(digit_str(n % 10));
    proof {
        let last = seq![digit_char((n % 10) as nat)];
        if n >= 10 {
            let head = decimal((n / 10) as nat);
            assert(old(text)@ + head + last =~= old(text)@ + head.push(last[0]));
        }
    }
}

/// Appends `count` and the unit's name to `text`, unless `count` is zero.
fn append_unit(text: &mut String, count: u128, unit: &str)
    ensures
        final(text)@ == old(text)@ + unit_text(count as nat, unit@),
{
    if count > 0 {
        append_decimal(text, count);
        text.append(unit);
        assert(text@ =~= old(text)@ + (decimal(count as nat) + unit@));
    } else {
        assert(text@ =~= old(text)@ + Seq::<char>::empty());
    }
}

/// Formats a span given in milliseconds as a compact string, indicating
/// days, hours, minutes, seconds, and milliseconds. A span of zero gives
/// the empty string.
pub fn format_millis(millis: u128) -> (text: String)
    ensures
        text@ == span_text(millis as nat),
{
    proof {
        reveal_strlit("d");
        reveal_strlit("h");
        reveal_strlit("m");
        reveal_strlit("s");
        reveal_strlit("ms");
        assert("d"@ =~= seq!['d']);
        assert("h"@ =~= seq!['h']);
        assert("m"@ =~= seq!['m']);
        assert("s"@ =~= seq!['s']);
        assert("ms"@ =~= seq!['m', 's']);
    }
    let mut text = String::new();
    append_unit(&mut text, millis / 86_400_000, "d");
    append_unit(&mut text, millis % 86_400_000 / 3_600_000, "h");
    append_unit(&mut text, millis % 3_600_000 / 60_000, "m");
    append_unit(&mut text, millis % 60_000 / 1_000, "s");
    append_unit(&mut text, millis % 1_000, "ms");
    assert(text@ =~= span_text(millis as nat));
    text
}

/// Formats `duration` as a compact string, indicating days, hours, minutes,
/// seconds, and milliseconds.
pub fn format(duration: Duration) -> (text: String)
    ensures
        text@ == span_text(duration_millis(duration)),
{
    format_millis(duration.as_millis())
}

} // verus!
