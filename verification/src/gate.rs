//! The sequence gate: classifies each incoming diff event against the
//! identifier of the last fully-applied update.

use vstd::prelude::*;

verus! {

/// Decision of the sequence gate for one incoming diff event.
#[derive(PartialEq, Eq, Structural, Clone, Copy, Debug)]
pub enum GateDecision {
    /// The event is entirely already-applied history: discard silently.
    Stale,
    /// The event is applicable: apply its deltas and advance the last id.
    Accept,
    /// One or more updates were missed: the session must resynchronize.
    Gap,
}

/// The window check: the event's id range covers the next expected id.
pub open spec fn covers_next(last_id: int, start: int, end: int) -> bool {
    start <= last_id + 1 && last_id + 1 <= end
}

/// The back-reference check: the event declares a non-zero previous final
/// id equal to the last applied id, explicitly chaining from it.
pub open spec fn chains_back(last_id: int, prev_final: int) -> bool {
    prev_final != 0 && prev_final == last_id
}

/// A non-stale event is accepted when either contiguity check holds.
pub open spec fn accepts(last_id: int, start: int, end: int, prev_final: int) -> bool {
    end > last_id && (covers_next(last_id, start, end) || chains_back(last_id, prev_final))
}

/// Classify one diff event with id range `start..=end` and optional
/// back-reference `prev_final` (zero when absent) against `last_id`.
///
/// Staleness is checked before the contiguity checks, so an old
/// re-delivered event can never spuriously satisfy them.
pub fn sequence_gate(last_id: i64, start: i64, end: i64, prev_final: i64) -> (d: GateDecision)
    ensures
        d == GateDecision::Stale <==> end <= last_id,
        d == GateDecision::Accept <==> accepts(last_id as int, start as int, end as int, prev_final as int),
        d == GateDecision::Gap <==> end > last_id && !accepts(last_id as int, start as int, end as int, prev_final as int),
{
    if end <= last_id {
        GateDecision::Stale
    } else {
        let next: i128 = last_id as i128 + 1;
        let window: bool = start as i128 <= next && next <= end as i128;
        let back: bool = prev_final != 0 && prev_final == last_id;
        if window || back {
            GateDecision::Accept
        } else {
            GateDecision::Gap
        }
    }
}

} // verus!
