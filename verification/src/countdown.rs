//! The quit countdown after a save is wiped: the game announces the seconds
//! left in the event log and ends when they run out, unless a key cancels
//! it first.

use vstd::prelude::*;

use crate::colors::red;
use crate::event_log::{appended, EventLog};
use crate::frame::push_text;
use crate::game::{ActionCost, Intent};
use crate::paths::{decimal, decimal_string};
use crate::text::{chars_of, string_from_chars};

verus! {

/// Frames in one second of the countdown.
pub const COUNTDOWN_FRAMES: u32 = 30;

/// Frames until the countdown ends the game: the rest of the current second,
/// then a full second for each second after it.
pub open spec fn frames_left(remaining: u32, frame: u32) -> int {
    if remaining == 0 {
        0
    } else {
        (remaining - 1) * 30 + (30 - frame)
    }
}

/// The announcement of the seconds left.
pub open spec fn quitting_text(n: u32) -> Seq<char> {
    "Quitting in "@ + decimal(n as nat) + "..."@
}

/// The red of the announcements.
pub open spec fn countdown_red() -> (u8, u8, u8) {
    (255u8, 0u8, 0u8)
}

fn quitting_message(n: u32) -> (s: String)
    ensures
        s@ == quitting_text(n),
{
    let mut out: Vec<char> = chars_of("Quitting in ");
    let digits = decimal_string(n);
    push_text(&mut out, digits.as_str());
    push_text(&mut out, "...");
    string_from_chars(out.as_slice())
}

/// One frame of a running countdown with no key pressed. The frame counter
/// moves on; when a second is full it starts over, the log announces the
/// seconds that were left, and one fewer is left. Returns whether the game
/// goes on: it stops when no second is left. Each frame brings the end one
/// frame closer.
pub fn countdown_frame(remaining: &mut u32, frame: &mut u32, log: &mut EventLog) -> (goes_on: bool)
    requires
        *old(remaining) > 0,
        *old(frame) < COUNTDOWN_FRAMES,
        old(log).wf(),
    ensures
        final(log).wf(),
        *final(frame) < COUNTDOWN_FRAMES,
        frames_left(*final(remaining), *final(frame)) == frames_left(*old(remaining), *old(frame)) - 1,
        goes_on <==> *final(remaining) > 0,
        goes_on <==> frames_left(*final(remaining), *final(frame)) > 0,
        *old(frame) + 1 < COUNTDOWN_FRAMES ==> {
            &&& *final(frame) == *old(frame) + 1
            &&& *final(remaining) == *old(remaining)
            &&& *final(log) == *old(log)
        },
        *old(frame) + 1 == COUNTDOWN_FRAMES ==> {
            &&& *final(frame) == 0
            &&& *final(remaining) == *old(remaining) - 1
            &&& final(log).lines() == appended(old(log).lines(), (quitting_text(*old(remaining)), Some(countdown_red())))
        },
{
    *frame = *frame + 1;
    if *frame >= COUNTDOWN_FRAMES {
        *frame = 0;
        let text = quitting_message(*remaining);
        log.push_colored(text, red());
        *remaining = *remaining - 1;
    }
    *remaining > 0
}

/// A key cancels a running countdown when it is Escape or asks to close an
/// overlay.
pub fn cancels_countdown(remaining: u32, is_escape: bool, intent: &Intent) -> (b: bool)
    ensures
        b <==> remaining > 0 && (is_escape || *intent is CloseOverlay),
{
    remaining > 0 && (is_escape || matches!(intent, Intent::CloseOverlay))
}

/// Cancelling the countdown: nothing is left of it, and the log says so.
pub fn cancel_countdown(remaining: &mut u32, frame: &mut u32, log: &mut EventLog)
    requires
        old(log).wf(),
    ensures
        final(log).wf(),
        *final(remaining) == 0,
        *final(frame) == 0,
        final(log).lines() == appended(old(log).lines(), ("Countdown cancelled."@, None)),
{
    *remaining = 0;
    *frame = 0;
    log.push("Countdown cancelled.".to_owned());
}

/// The frame counter after an intent: an intent that took a tick while no
/// countdown runs starts the count over.
pub fn frame_after_intent(frame: u32, cost: ActionCost, remaining: u32) -> (f: u32)
    ensures
        f == (if cost == ActionCost::Tick && remaining == 0 {
            0
        } else {
            frame
        }),
{
    if cost == ActionCost::Tick && remaining == 0 {
        0
    } else {
        frame
    }
}

/// Which way the mouse wheel turned, if it did.
#[derive(Clone, Copy, Debug, PartialEq, Eq, Structural)]
pub enum Wheel {
    Up,
    Down,
    Still,
}

/// The scroll a wheel turn asks for: three lines up or down.
pub fn wheel_scroll(wheel: Wheel) -> (delta: Option<i32>)
    ensures
        delta == (match wheel {
            Wheel::Up => Some(-3i32),
            Wheel::Down => Some(3i32),
            Wheel::Still => None,
        }),
{
    match wheel {
        Wheel::Up => Some(-3),
        Wheel::Down => Some(3),
        Wheel::Still => None,
    }
}

/// A countdown of `n` seconds, left alone, ends the game after exactly
/// `30 * n` frames: it starts with that many frames left, each frame takes
/// one away (see `countdown_frame`), and the game goes on exactly while
/// frames are left.
pub proof fn lemma_countdown_length(n: u32, remaining: u32, frame: u32)
    requires
        frame < COUNTDOWN_FRAMES,
    ensures
        frames_left(n, 0) == COUNTDOWN_FRAMES * n,
        frames_left(remaining, frame) > 0 <==> remaining > 0,
{
}

} // verus!
