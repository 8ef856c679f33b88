use std::sync::atomic::{AtomicU32, Ordering};
use std::sync::Arc;

use sneak::input::{observe, sampler_step, SamplerAction, DEFAULT_KEY, NO_KEY};

#[test]
fn input_slot_keeps_last_write() {
    let slot = Arc::new(AtomicU32::new(87));
    let producer = slot.clone();
    producer.store(68, Ordering::Relaxed);
    producer.store(83, Ordering::Relaxed);
    assert_eq!(slot.load(Ordering::Relaxed), 83);
    assert_eq!(slot.load(Ordering::Relaxed), sneak::game::S_KEY);
}

#[test]
fn hook_keeps_last_key_down() {
    let mut slot = DEFAULT_KEY;
    slot = observe(slot, true, 65);
    slot = observe(slot, true, 68);
    slot = observe(slot, false, 83);
    assert_eq!(slot, 68);
}

#[test]
fn sampler_publishes_until_stopped() {
    assert_eq!(sampler_step(true, 65), SamplerAction::Publish(65));
    assert_eq!(sampler_step(false, 65), SamplerAction::Stop);
}

#[test]
fn hook_starts_on_no_direction_key() {
    assert_eq!(observe(NO_KEY, false, 65), NO_KEY);
    assert_ne!(NO_KEY, sneak::game::W_KEY);
}
