//! The escape-time loop: a bounded iteration that probes a state before each
//! step and reports the index of the first check that found the state escaped.
//! The state and the step are the caller's — for the Mandelbrot set, a complex
//! point and the quadratic recurrence — so the loop, its counting convention
//! and its bound are what this module pins down.

use vstd::prelude::*;

verus! {

/// `states` records a quiet run of the probe from `start`: it begins at
/// `start`, and every state but the last advanced to its successor with a
/// check that did not report escape.
pub open spec fn probe_trace<S, F: Fn(S) -> (bool, S)>(
    probe: F,
    start: S,
    states: Seq<S>,
) -> bool {
    &&& states.len() > 0
    &&& states[0] == start
    &&& forall|j: int|
        0 <= j < states.len() - 1 ==> #[trigger] call_ensures(
            probe,
            (states[j],),
            (false, states[j + 1]),
        )
}

/// Runs the escape-time loop: before each of up to `limit` steps, the probe
/// reports whether the current state has escaped and hands back the advanced
/// state. The result is the index of the first check that reported escape —
/// so `Some(i)` means the check after `i` advances fired — or `None` when all
/// `limit` checks stayed quiet.
#[verifier::loop_isolation(false)]
pub fn escape_time_with<S: Copy, F: Fn(S) -> (bool, S)>(start: S, probe: F, limit: i32) -> (r:
    Option<usize>)
    requires
        forall|s: S| #[trigger] call_requires(probe, (s,)),
    ensures
        match r {
            Some(i) => i < limit && exists|states: Seq<S>, next: S|
                #![auto]
                {
                    &&& probe_trace(probe, start, states)
                    &&& states.len() == i + 1
                    &&& call_ensures(probe, (states[i as int],), (true, next))
                },
            None => limit <= 0 || exists|states: Seq<S>|
                #![auto]
                probe_trace(probe, start, states) && states.len() == limit + 1,
        },
{
    let mut state: S = start;
    let mut i: i32 = 0;
    let ghost mut trace: Seq<S> = seq![start];
    if limit <= 0 {
        return None;
    }
    while i < limit
        invariant
            0 <= i <= limit,
            trace.len() == i + 1,
            trace[i as int] == state,
            probe_trace(probe, start, trace),
        decreases limit - i,
    {
        let (escaped, next) = probe(state);
        if escaped {
            proof {
                assert(probe_trace(probe, start, trace) && trace.len() == i + 1 && call_ensures(
                    probe,
                    (trace[i as int],),
                    (true, next),
                ));
            }
            return Some(i as usize);
        }
        proof {
            let old_trace = trace;
            trace = trace.push(next);
            assert forall|j: int| 0 <= j < trace.len() - 1 implies #[trigger] call_ensures(
                probe,
                (trace[j],),
                (false, trace[j + 1]),
            ) by {
                if j < old_trace.len() - 1 {
                    assert(trace[j] == old_trace[j]);
                    assert(trace[j + 1] == old_trace[j + 1]);
                } else {
                    assert(trace[j] == state);
                    assert(trace[j + 1] == next);
                }
            }
        }
        state = next;
        i += 1;
    }
    None
}

} // verus!
