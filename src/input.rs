use vstd::prelude::*;

verus! {

/// The key code the input slot holds before any key is seen.
pub const DEFAULT_KEY: u32 = 87;

/// What the sampler does after one poll of the platform's input.
#[derive(Clone, Copy, Debug, PartialEq, Eq, Structural)]
pub enum SamplerAction {
    /// Store the code in the shared slot and poll again after the interval.
    Publish(u32),
    /// Leave the loop and release the keyboard hook.
    Stop,
}

/// The code the hook holds before it sees any key; it is no direction key.
pub const NO_KEY: u32 = 20;

/// The sampler's decision after a poll: while the keep-running flag is set
/// it publishes the code the hook captured; once it is cleared it stops.
pub open spec fn decision(keep_running: bool, captured: u32) -> SamplerAction {
    if keep_running { SamplerAction::Publish(captured) } else { SamplerAction::Stop }
}

/// The slot's content after an input event: a key-down replaces it with
/// the key's code, anything else leaves it.
pub open spec fn observed(slot: u32, key_down: bool, code: u32) -> u32 {
    if key_down { code } else { slot }
}

/// The slot's content after a sequence of (key-down, code) events.
pub open spec fn observed_all(slot: u32, events: Seq<(bool, u32)>) -> u32
    decreases events.len(),
{
    if events.len() == 0 {
        slot
    } else {
        observed(observed_all(slot, events.drop_last()), events.last().0, events.last().1)
    }
}

/// The slot's content after the hook sees one input event.
pub fn observe(slot: u32, key_down: bool, code: u32) -> (r: u32)
    ensures
        r == observed(slot, key_down, code),
{
    if key_down { code } else { slot }
}

/// The sampler's decision after a poll: while the keep-running flag is set
/// it publishes the code the hook captured; once it is cleared it stops.
pub fn sampler_step(keep_running: bool, captured: u32) -> (a: SamplerAction)
    ensures
        a == decision(keep_running, captured),
{
    if keep_running {
        SamplerAction::Publish(captured)
    } else {
        SamplerAction::Stop
    }
}

/// Last write wins: after a key-down of `k1` and then one of `k2`, with any
/// other events before, between or after that are not key-downs, the slot
/// holds `k2`.
pub proof fn lemma_last_key_wins(slot: u32, events: Seq<(bool, u32)>, i: int, j: int)
    requires
        0 <= i < j < events.len(),
        events[i].0,
        events[j].0,
        forall|k: int| j < k < events.len() ==> !(#[trigger] events[k]).0,
    ensures
        observed_all(slot, events) == events[j].1,
    decreases events.len(),
{
    if events.len() - 1 > j {
        assert(events.drop_last()[j] == events[j]);
        assert forall|k: int| j < k < events.drop_last().len() implies !(#[trigger] events.drop_last()[k]).0 by {
            assert(events.drop_last()[k] == events[k]);
        }
        lemma_last_key_wins(slot, events.drop_last(), i, j);
    }
}

/// Last write wins through the sampler: once the hook has seen a key-down
/// of `k1` and later one of `k2`, with no key-down after it, a poll while
/// the keep-running flag is set publishes `k2`.
pub proof fn lemma_sampler_publishes_last_key(slot: u32, events: Seq<(bool, u32)>, i: int, j: int)
    requires
        0 <= i < j < events.len(),
        events[i].0,
        events[j].0,
        forall|k: int| j < k < events.len() ==> !(#[trigger] events[k]).0,
    ensures
        decision(true, observed_all(slot, events)) == SamplerAction::Publish(events[j].1),
{
    lemma_last_key_wins(slot, events, i, j);
}

} // verus!
