//! What the user is told about screenshots.

use vstd::prelude::*;

verus! {

/// How long each pulse lasts.
pub const HAPTIC_DURATION_MS: u64 = 50;

/// Pause between the hands.
pub const HAPTIC_HAND_DELAY_MS: u64 = 80;

/// A hand with a controller.
#[derive(Clone, Copy, PartialEq, Eq, Structural, Debug)]
pub enum Hand {
    Left,
    Right,
}

/// A pulse in one hand, after a pause.
#[derive(Clone, Copy, PartialEq, Eq, Structural, Debug)]
pub struct HapticPulse {
    pub delay_ms: u64,
    pub hand: Hand,
    pub duration_ms: u64,
}

/// The pulses that tell the user a screenshot has reached the PC. The system already plays its own
/// shutter sound at capture time, so this signals delivery, not capture. Left, then right: the
/// direction is what makes the pulse readable as a notification rather than stray in-game rumble.
pub fn notify_delivered() -> (pulses: Vec<HapticPulse>)
    ensures
        pulses@ == seq![
            (HapticPulse { delay_ms: 0, hand: Hand::Left, duration_ms: HAPTIC_DURATION_MS }),
            (HapticPulse {
                delay_ms: HAPTIC_HAND_DELAY_MS,
                hand: Hand::Right,
                duration_ms: HAPTIC_DURATION_MS,
            }),
        ],
{
    let mut pulses: Vec<HapticPulse> = Vec::new();
    pulses.push(
        HapticPulse { delay_ms: 0, hand: Hand::Left, duration_ms: HAPTIC_DURATION_MS },
    );
    pulses.push(
        HapticPulse {
            delay_ms: HAPTIC_HAND_DELAY_MS,
            hand: Hand::Right,
            duration_ms: HAPTIC_DURATION_MS,
        },
    );
    pulses
}

/// Whether the headset granted us access to the media collection, given the two permissions that
/// do. Reported to the user rather than failing silently: a denied dialog is otherwise
/// indistinguishable from a broken feature.
pub fn storage_permission_granted(storage_read: bool, media_images: bool) -> (granted: bool)
    ensures
        granted == (storage_read || media_images),
{
    storage_read || media_images
}

} // verus!
