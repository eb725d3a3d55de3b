//! What `status` says about the running task.
use vstd::prelude::*;

use crate::datetime::{
    duration_ns, duration_since, int_text, int_to_string, trunc_div, valid_datetime, DateTime,
};
use crate::log::{valid_entry, Entry};
use crate::report::hours_of;

verus! {

broadcast use vstd::string::group_string_axioms;

/// `a % b` as Rust computes it for positive `b`: the sign of `a`.
pub open spec fn trunc_rem(a: int, b: int) -> int {
    a - b * trunc_div(a, b)
}

/// The status text when nothing runs.
pub open spec fn idle_text() -> Seq<char> {
    "Not tracking anything.\n"@
}

/// The status text of a task with tag `tag` running for `ns` nanoseconds: its
/// tag, then the whole hours and the minutes beyond them.
pub open spec fn tracking_text(tag: Seq<char>, ns: int) -> Seq<char> {
    "Tracking: "@ + tag + "\nElapsed: "@ + int_text(hours_of(ns)) + "h "@ + int_text(
        trunc_rem(trunc_div(ns, 60_000_000_000), 60),
    ) + "m\n"@
}

/// While a task runs, the status shows its tag and the time since it started
/// as whole hours and the minutes beyond them: sixty times the hours plus the
/// minutes is the elapsed whole minutes, rounded toward zero, and the minutes
/// lie strictly between -60 and 60 with the sign of the elapsed time.
pub proof fn law_status_elapsed(tag: Seq<char>, ns: int)
    ensures
        exists|h: int, m: int|
            #![trigger int_text(h), int_text(m)]
            tracking_text(tag, ns) == "Tracking: "@ + tag + "\nElapsed: "@ + int_text(h) + "h "@
                + int_text(m) + "m\n"@ && h * 60 + m == trunc_div(ns, 60_000_000_000) && -60 < m
                < 60 && (ns >= 0 ==> 0 <= m) && (ns <= 0 ==> m <= 0),
{
    crate::report::lemma_hours_minutes_split(ns);
    let h = hours_of(ns);
    let m = crate::report::minutes_of(ns);
    assert(trunc_rem(trunc_div(ns, 60_000_000_000), 60) == m);
    assert(tracking_text(tag, ns) == "Tracking: "@ + tag + "\nElapsed: "@ + int_text(h) + "h "@
        + int_text(m) + "m\n"@);
}

/// The status text at `now`: the running entry with the time since it
/// started, or that nothing runs.
pub fn status_text(active: Option<&Entry>, now: DateTime) -> (r: String)
    requires
        valid_datetime(now),
        active matches Some(e) ==> valid_entry(e@),
    ensures
        match active {
            None => r@ == idle_text(),
            Some(e) => r@ == tracking_text(e.tag@, duration_ns(now, e.start)),
        },
{
    proof {
        reveal_strlit("Not tracking anything.\n");
        reveal_strlit("Tracking: ");
        reveal_strlit("\nElapsed: ");
        reveal_strlit("h ");
        reveal_strlit("m\n");
    }
    match active {
        None => String::from_str("Not tracking anything.\n"),
        Some(e) => {
            let d = duration_since(&now, &e.start);
            proof {
                crate::report::lemma_hours_minutes_bounds(d.ns());
            }
            let hours = d.num_hours();
            let minutes = d.num_minutes() % 60;
            let mut out = String::from_str("Tracking: ");
            out.append(e.tag.as_str());
            out.append("\nElapsed: ");
            out.append(int_to_string(hours).as_str());
            out.append("h ");
            out.append(int_to_string(minutes).as_str());
            out.append("m\n");
            assert(out@ =~= tracking_text(e.tag@, duration_ns(now, e.start)));
            out
        },
    }
}

} // verus!
