//! What a receivers builder holds after any sequence of its steps.
use vstd::prelude::*;

use crate::receivers::{receivers_build_result, ReceiverSet};

verus! {

/// One step of a receivers builder: `broadcast()`, `none()`, `clear()`,
/// `add_node(name)` or `add_nodes(names)`.
pub enum ReceiversStep {
    Broadcast,
    NoReceivers,
    Clear,
    AddNode(Seq<char>),
    AddNodes(Seq<Seq<char>>),
}

/// What a builder holds (its broadcast mark and its names) after one step,
/// as the builder's methods state it.
pub open spec fn receivers_step(state: (bool, Seq<Seq<char>>), step: ReceiversStep) -> (
    bool,
    Seq<Seq<char>>,
) {
    match step {
        ReceiversStep::Broadcast => (true, Seq::empty()),
        ReceiversStep::NoReceivers => (false, Seq::empty()),
        ReceiversStep::Clear => (false, Seq::empty()),
        ReceiversStep::AddNode(x) => (false, state.1.push(x)),
        ReceiversStep::AddNodes(xs) => (
            if xs.len() == 0 {
                state.0
            } else {
                false
            },
            state.1 + xs,
        ),
    }
}

/// What a new builder holds after `steps`, in order.
pub open spec fn receivers_after(steps: Seq<ReceiversStep>) -> (bool, Seq<Seq<char>>)
    decreases steps.len(),
{
    if steps.len() == 0 {
        (false, Seq::empty())
    } else {
        receivers_step(receivers_after(steps.drop_last()), steps.last())
    }
}

/// The step drops every name: `broadcast()`, `none()` or `clear()`.
pub open spec fn is_reset(step: ReceiversStep) -> bool {
    step is Broadcast || step is NoReceivers || step is Clear
}

/// The names a step adds.
pub open spec fn step_names(step: ReceiversStep) -> Seq<Seq<char>> {
    match step {
        ReceiversStep::AddNode(x) => seq![x],
        ReceiversStep::AddNodes(xs) => xs,
        _ => Seq::empty(),
    }
}

/// The names that `steps` add, in order.
pub open spec fn names_added(steps: Seq<ReceiversStep>) -> Seq<Seq<char>>
    decreases steps.len(),
{
    if steps.len() == 0 {
        Seq::empty()
    } else {
        names_added(steps.drop_last()) + step_names(steps.last())
    }
}

/// Where the steps after the last reset begin (0 when there is none).
pub open spec fn after_last_reset(steps: Seq<ReceiversStep>) -> int
    decreases steps.len(),
{
    if steps.len() == 0 {
        0
    } else if is_reset(steps.last()) {
        steps.len() as int
    } else {
        after_last_reset(steps.drop_last())
    }
}

/// The names added since the last `broadcast()`, `none()` or `clear()` (or
/// since the builder was made).
pub open spec fn names_since_reset(steps: Seq<ReceiversStep>) -> Seq<Seq<char>> {
    names_added(steps.subrange(after_last_reset(steps), steps.len() as int))
}

/// `broadcast()` was called and nothing after the last such call drops the
/// mark: no `none()`, no `clear()` and no added name.
pub open spec fn broadcast_pending(steps: Seq<ReceiversStep>) -> bool {
    exists|i: int|
        0 <= i < steps.len() && steps[i] is Broadcast && forall|j: int|
            i < j < steps.len() ==> #[trigger] steps[j] is AddNodes && step_names(steps[j]).len()
                == 0
}

proof fn lemma_after_last_reset_bound(steps: Seq<ReceiversStep>)
    ensures
        0 <= after_last_reset(steps) <= steps.len(),
    decreases steps.len(),
{
    if steps.len() > 0 {
        lemma_after_last_reset_bound(steps.drop_last());
    }
}

/// After any steps, a builder is marked broadcast exactly when a broadcast
/// is pending, and holds exactly the names added since the last reset.
pub proof fn lemma_receivers_after(steps: Seq<ReceiversStep>)
    ensures
        receivers_after(steps) == (broadcast_pending(steps), names_since_reset(steps)),
    decreases steps.len(),
{
    let n = steps.len() as int;
    if n == 0 {
        assert(steps.subrange(0, 0) =~= Seq::<ReceiversStep>::empty());
    } else {
        let prev = steps.drop_last();
        let last = steps.last();
        lemma_receivers_after(prev);
        lemma_after_last_reset_bound(prev);
        let k = after_last_reset(prev);
        if is_reset(last) {
            assert(steps.subrange(n, n) =~= Seq::<ReceiversStep>::empty());
            if last is Broadcast {
                assert(broadcast_pending(steps)) by {
                    assert(steps[n - 1] is Broadcast);
                }
            } else {
                assert(!broadcast_pending(steps)) by {
                    if broadcast_pending(steps) {
                        let i = choose|i: int|
                            0 <= i < steps.len() && steps[i] is Broadcast && forall|j: int|
                                i < j < steps.len() ==> #[trigger] steps[j] is AddNodes
                                    && step_names(steps[j]).len() == 0;
                        if i < n - 1 {
                            assert(steps[n - 1] is AddNodes);
                        }
                    }
                }
            }
        } else {
            assert(after_last_reset(steps) == k);
            let sub = steps.subrange(k, n);
            assert(sub.drop_last() =~= prev.subrange(k, n - 1));
            assert(sub.last() == last);
            if sub.len() == 0 {
                assert(false);
            }
            assert(names_since_reset(steps) == names_since_reset(prev) + step_names(last));
            match last {
                ReceiversStep::AddNode(x) => {
                    assert(step_names(last) =~= seq![x]);
                    assert(names_since_reset(prev) + seq![x] =~= names_since_reset(prev).push(x));
                    assert(!broadcast_pending(steps)) by {
                        if broadcast_pending(steps) {
                            let i = choose|i: int|
                                0 <= i < steps.len() && steps[i] is Broadcast && forall|j: int|
                                    i < j < steps.len() ==> #[trigger] steps[j] is AddNodes
                                        && step_names(steps[j]).len() == 0;
                            if i < n - 1 {
                                assert(steps[n - 1] is AddNodes);
                            }
                        }
                    }
                },
                ReceiversStep::AddNodes(xs) => {
                    if xs.len() == 0 {
                        assert(names_since_reset(prev) + xs =~= names_since_reset(prev));
                        assert(broadcast_pending(steps) == broadcast_pending(prev)) by {
                            if broadcast_pending(prev) {
                                let i = choose|i: int|
                                    0 <= i < prev.len() && prev[i] is Broadcast && forall|j: int|
                                        i < j < prev.len() ==> #[trigger] prev[j] is AddNodes
                                            && step_names(prev[j]).len() == 0;
                                assert(steps[i] is Broadcast);
                                assert forall|j: int| i < j < steps.len() implies #[trigger] steps[
                                    j] is AddNodes && step_names(steps[j]).len() == 0 by {
                                    if j < n - 1 {
                                        assert(prev[j] == steps[j]);
                                    }
                                }
                            }
                            if broadcast_pending(steps) {
                                let i = choose|i: int|
                                    0 <= i < steps.len() && steps[i] is Broadcast && forall|j: int|
                                        i < j < steps.len() ==> #[trigger] steps[j] is AddNodes
                                            && step_names(steps[j]).len() == 0;
                                assert(i < n - 1);
                                assert(prev[i] is Broadcast);
                                assert forall|j: int| i < j < prev.len() implies #[trigger] prev[
                                    j] is AddNodes && step_names(prev[j]).len() == 0 by {
                                    assert(prev[j] == steps[j]);
                                }
                            }
                        }
                    } else {
                        assert(!broadcast_pending(steps)) by {
                            if broadcast_pending(steps) {
                                let i = choose|i: int|
                                    0 <= i < steps.len() && steps[i] is Broadcast && forall|j: int|
                                        i < j < steps.len() ==> #[trigger] steps[j] is AddNodes
                                            && step_names(steps[j]).len() == 0;
                                if i < n - 1 {
                                    assert(steps[n - 1] is AddNodes);
                                }
                            }
                        }
                    }
                },
                _ => {},
            }
        }
    }
}

/// What a receivers builder builds after any sequence of steps: broadcast
/// when a broadcast is pending, and otherwise the names added since the
/// last `broadcast()`, `none()` or `clear()` (none when there are none),
/// within the limits on their number, distinctness and length.
pub proof fn lemma_receivers_build_after(steps: Seq<ReceiversStep>)
    ensures
        ({
            let (broadcast, names) = receivers_after(steps);
            receivers_build_result(broadcast, names) == if broadcast_pending(steps) {
                Ok::<ReceiverSet, crate::error::Error>(ReceiverSet::Broadcast)
            } else {
                receivers_build_result(false, names_since_reset(steps))
            }
        }),
        !broadcast_pending(steps) && names_since_reset(steps).len() == 0 ==> receivers_build_result(
            receivers_after(steps).0,
            receivers_after(steps).1,
        ) == Ok::<ReceiverSet, crate::error::Error>(ReceiverSet::Unspecified),
{
    lemma_receivers_after(steps);
}

} // verus!
