//! Lines of the debug log.

use vstd::prelude::*;

use crate::text;

verus! {

/// A time as the log shows it: seconds, and milliseconds in three digits.
pub open spec fn timestamp_text(secs: u64, millis: u32) -> Seq<char> {
    text::decimal_text(secs as nat) + "."@ + text::padded(
        text::decimal_text(millis as nat),
        3,
        '0',
    )
}

/// A time as the log shows it.
pub fn timestamp(secs: u64, millis: u32) -> (r: String)
    ensures
        r@ == timestamp_text(secs, millis),
{
    text::cat3(
        text::decimal(secs).as_str(),
        ".",
        text::pad(text::decimal(millis as u64).as_str(), 3, '0').as_str(),
    )
}

/// A line of the log.
pub fn log_line(secs: u64, millis: u32, msg: &str) -> (r: String)
    ensures
        r@ == "["@ + timestamp_text(secs, millis) + "] "@ + msg@ + "\n"@,
{
    text::cat5("[", timestamp(secs, millis).as_str(), "] ", msg, "\n")
}

/// A line of the log has the seconds, the milliseconds with three digits, the message as it is, and
/// an end.
pub proof fn lemma_log_line(secs: u64, millis: u32, msg: &str, r: String)
    requires
        call_ensures(log_line, (secs, millis, msg), r),
    ensures
        exists|a: Seq<char>, b: Seq<char>|
            r@ == "["@ + #[trigger] (a + "."@ + b) + "] "@ + msg@ + "\n"@ && text::digits_number(
                a,
                10,
            ) == secs && text::digits_number(b, 10) == millis && b.len() >= 3,
{
    let a = text::decimal_text(secs as nat);
    let d = text::decimal_text(millis as nat);
    let b = text::padded(d, 3, '0');
    text::lemma_number_is_written(secs as nat, 10);
    text::lemma_number_is_written(millis as nat, 10);
    text::lemma_zeros_in_front(d, (b.len() - d.len()) as nat, 10);
    assert(b =~= Seq::new((b.len() - d.len()) as nat, |k: int| '0') + d);
    assert(r@ == "["@ + (a + "."@ + b) + "] "@ + msg@ + "\n"@);
}

} // verus!
