//! The debounce filter: a trigger candidate is accepted only when no
//! trigger was accepted before, or when at least a fixed quiet window
//! has elapsed since the last accepted trigger.

use vstd::prelude::*;

verus! {

/// Quiet window of the debounce filter, in milliseconds.
pub const DEBOUNCE_MS: u64 = 8000;

/// A candidate at time `now` is accepted when no trigger was accepted
/// before, or when the quiet window has fully elapsed since the last
/// accepted trigger.
pub open spec fn debounce_accepts(last: Option<u64>, now: u64) -> bool {
    match last {
        Option::None => true,
        Option::Some(t) => now >= t + DEBOUNCE_MS,
    }
}

/// Decides whether a trigger candidate at time `now` is accepted, given
/// the time of the last accepted trigger, if any.
pub fn accepts(last: Option<u64>, now: u64) -> (r: bool)
    ensures
        r == debounce_accepts(last, now),
{
    match last {
        Option::None => true,
        Option::Some(t) => now >= t && now - t >= DEBOUNCE_MS,
    }
}

/// The subsequence of trigger candidates that the debounce filter
/// accepts, starting from a given last-accepted time: each acceptance
/// records its own time as the new last-accepted time.
pub open spec fn accepted_of(times: Seq<u64>, last: Option<u64>) -> Seq<u64>
    decreases times.len(),
{
    if times.len() == 0 {
        Seq::empty()
    } else if debounce_accepts(last, times[0]) {
        seq![times[0]] + accepted_of(times.drop_first(), Some(times[0]))
    } else {
        accepted_of(times.drop_first(), last)
    }
}

/// Debounce law: over any sequence of trigger candidates, any two
/// distinct accepted triggers lie at least the quiet window apart, and
/// every accepted trigger lies at least the quiet window after the
/// last-accepted time the run started from. In particular, at most one
/// trigger is accepted within any window of `DEBOUNCE_MS` milliseconds
/// measured from an accepted trigger.
pub proof fn lemma_debounce_spacing(times: Seq<u64>, last: Option<u64>)
    ensures
        forall|i: int, j: int|
            #![trigger accepted_of(times, last)[i], accepted_of(times, last)[j]]
            0 <= i < j < accepted_of(times, last).len()
                ==> accepted_of(times, last)[i] + DEBOUNCE_MS <= accepted_of(times, last)[j],
        last matches Some(t) ==> forall|j: int|
            0 <= j < accepted_of(times, last).len()
                ==> t + DEBOUNCE_MS <= #[trigger] accepted_of(times, last)[j],
    decreases times.len(),
{
    if times.len() == 0 {
    } else if debounce_accepts(last, times[0]) {
        let rest = accepted_of(times.drop_first(), Some(times[0]));
        lemma_debounce_spacing(times.drop_first(), Some(times[0]));
        assert(accepted_of(times, last) == seq![times[0]] + rest);
        assert forall|i: int, j: int|
            0 <= i < j < accepted_of(times, last).len()
                implies accepted_of(times, last)[i] + DEBOUNCE_MS
                    <= accepted_of(times, last)[j] by {
            assert(accepted_of(times, last)[j] == rest[j - 1]);
            if i > 0 {
                assert(accepted_of(times, last)[i] == rest[i - 1]);
            }
        }
    } else {
        lemma_debounce_spacing(times.drop_first(), last);
        assert(accepted_of(times, last) == accepted_of(times.drop_first(), last));
    }
}

} // verus!
