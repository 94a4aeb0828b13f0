use xlyph::countdown::{
    cancel_countdown, cancels_countdown, countdown_frame, frame_after_intent, wheel_scroll, Wheel, COUNTDOWN_FRAMES,
};
use xlyph::event_log::EventLog;
use xlyph::game::{ActionCost, Intent};

fn lines(log: &EventLog) -> Vec<(String, Option<(u8, u8, u8)>)> {
    log.entries().iter().map(|e| (e.text.clone(), e.color)).collect()
}

#[test]
fn three_seconds_take_ninety_frames() {
    let mut remaining: u32 = 3;
    let mut frame: u32 = 0;
    let mut log = EventLog::new();
    let mut frames = 0;
    loop {
        frames += 1;
        if !countdown_frame(&mut remaining, &mut frame, &mut log) {
            break;
        }
        assert!(frames < 200);
    }
    assert_eq!(frames, 3 * COUNTDOWN_FRAMES);
    assert_eq!(remaining, 0);
    let red = Some((255u8, 0u8, 0u8));
    assert_eq!(
        lines(&log),
        vec![
            ("Quitting in 3...".to_string(), red),
            ("Quitting in 2...".to_string(), red),
            ("Quitting in 1...".to_string(), red),
        ]
    );
}

#[test]
fn a_frame_inside_a_second_only_counts() {
    let mut remaining: u32 = 12;
    let mut frame: u32 = 4;
    let mut log = EventLog::new();
    assert!(countdown_frame(&mut remaining, &mut frame, &mut log));
    assert_eq!((remaining, frame), (12, 5));
    assert!(log.entries().is_empty());

    let mut frame: u32 = 29;
    assert!(countdown_frame(&mut remaining, &mut frame, &mut log));
    assert_eq!((remaining, frame), (11, 0));
    assert_eq!(lines(&log), vec![("Quitting in 12...".to_string(), Some((255, 0, 0)))]);
}

#[test]
fn escape_or_close_cancels_a_running_countdown() {
    assert!(cancels_countdown(2, true, &Intent::Wait));
    assert!(cancels_countdown(2, false, &Intent::CloseOverlay));
    assert!(!cancels_countdown(2, false, &Intent::Wait));
    assert!(!cancels_countdown(0, true, &Intent::CloseOverlay));

    let mut remaining: u32 = 2;
    let mut frame: u32 = 17;
    let mut log = EventLog::new();
    cancel_countdown(&mut remaining, &mut frame, &mut log);
    assert_eq!((remaining, frame), (0, 0));
    assert_eq!(lines(&log), vec![("Countdown cancelled.".to_string(), None)]);
}

#[test]
fn ticks_restart_the_frame_count_only_without_a_countdown() {
    assert_eq!(frame_after_intent(7, ActionCost::Tick, 0), 0);
    assert_eq!(frame_after_intent(7, ActionCost::Tick, 2), 7);
    assert_eq!(frame_after_intent(7, ActionCost::Free, 0), 7);
    assert_eq!(frame_after_intent(7, ActionCost::Quit, 0), 7);
}

#[test]
fn the_wheel_scrolls_three_lines() {
    assert_eq!(wheel_scroll(Wheel::Up), Some(-3));
    assert_eq!(wheel_scroll(Wheel::Down), Some(3));
    assert_eq!(wheel_scroll(Wheel::Still), None);
}
