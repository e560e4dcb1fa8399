//! Figures for the bot's status report.

use vstd::prelude::*;
use crate::text::{push_signed_decimal, signed_decimal};

verus! {

/// `amount` followed by the unit's name, plural unless the amount is one.
pub open spec fn amount_of(amount: int, unit: Seq<char>) -> Seq<char> {
    signed_decimal(amount) + " "@ + unit + if amount != 1 { "s"@ } else { ""@ }
}

/// A duration given in milliseconds, in the largest unit it reaches (days,
/// hours, minutes or seconds, rounded down), or "less than a second".
pub open spec fn human_duration(millis: int) -> Seq<char> {
    if millis >= 86_400_000 {
        amount_of(millis / 86_400_000, "day"@)
    } else if millis >= 3_600_000 {
        amount_of(millis / 3_600_000, "hour"@)
    } else if millis >= 60_000 {
        amount_of(millis / 60_000, "minute"@)
    } else if millis >= 1000 {
        amount_of(millis / 1000, "second"@)
    } else {
        "less than a second"@
    }
}

fn amount_text(amount: i64, unit: &str) -> (r: String)
    ensures
        r@ == amount_of(amount as int, unit@),
{
    let mut s = String::new();
    push_signed_decimal(&mut s, amount);
    s.append(" ");
    s.append(unit);
    let ghost base = s@;
    if amount != 1 {
        s.append("s");
    } else {
        proof {
            reveal_strlit("");
        }
        assert(base + ""@ =~= base);
    }
    s
}

/// Writes a duration in milliseconds in the largest unit it reaches.
pub fn convert_millis_to_human_readable(millis: i64) -> (r: String)
    ensures
        r@ == human_duration(millis as int),
{
    if millis >= 86_400_000 {
        amount_text(millis / 86_400_000, "day")
    } else if millis >= 3_600_000 {
        amount_text(millis / 3_600_000, "hour")
    } else if millis >= 60_000 {
        amount_text(millis / 60_000, "minute")
    } else if millis >= 1000 {
        amount_text(millis / 1000, "second")
    } else {
        String::from_str("less than a second")
    }
}

} // verus!
