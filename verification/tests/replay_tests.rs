use mouse_replay::replayer::{Replayer, ReplayStep, SETTLE_US};
use mouse_replay::{ButtonLabel, MouseEvent};

fn mv(x: i32, y: i32, secs: f64) -> MouseEvent {
    MouseEvent { x, y, button: None, time_us: (secs * 1_000_000.0) as u64 }
}

fn click(x: i32, y: i32, button: ButtonLabel, secs: f64) -> MouseEvent {
    MouseEvent { x, y, button: Some(button), time_us: (secs * 1_000_000.0) as u64 }
}

#[test]
fn empty_timeline_plans_nothing() {
    let r = Replayer::new(Vec::new());
    assert!(r.is_monotone());
    assert!(r.plan().is_empty());
}

#[test]
fn pacing_targets_follow_original_offsets() {
    let r = Replayer::new(vec![mv(1, 1, 0.0), mv(2, 2, 0.5), mv(3, 3, 1.0)]);
    assert!(r.is_monotone());
    let plan = r.plan();
    assert_eq!(
        plan,
        vec![
            ReplayStep::MoveTo { target_us: 0, x: 1, y: 1 },
            ReplayStep::MoveTo { target_us: 500_000, x: 2, y: 2 },
            ReplayStep::MoveTo { target_us: 1_000_000, x: 3, y: 3 },
        ]
    );
}

#[test]
fn targets_are_normalized_to_first_timestamp() {
    // A recording that starts late still replays from offset zero.
    let r = Replayer::new(vec![mv(1, 1, 0.2), mv(2, 2, 0.7)]);
    let plan = r.plan();
    assert_eq!(plan[0], ReplayStep::MoveTo { target_us: 0, x: 1, y: 1 });
    assert_eq!(plan[1], ReplayStep::MoveTo { target_us: 500_000, x: 2, y: 2 });
}

#[test]
fn late_samples_keep_absolute_targets() {
    // Equal timestamps mean the second sample is already late; its target
    // stays the original offset, and the third is not re-based.
    let r = Replayer::new(vec![mv(1, 1, 0.0), mv(2, 2, 0.0), mv(3, 3, 0.4)]);
    let plan = r.plan();
    assert_eq!(plan[1], ReplayStep::MoveTo { target_us: 0, x: 2, y: 2 });
    assert_eq!(plan[2], ReplayStep::MoveTo { target_us: 400_000, x: 3, y: 3 });
}

#[test]
fn click_becomes_one_press_release_pair() {
    let r = Replayer::new(vec![click(5, 6, ButtonLabel::Left, 0.0)]);
    let plan = r.plan();
    assert_eq!(
        plan,
        vec![
            ReplayStep::MoveTo { target_us: 0, x: 5, y: 6 },
            ReplayStep::Press { button: ButtonLabel::Left },
            ReplayStep::Settle,
            ReplayStep::Release { button: ButtonLabel::Left },
        ]
    );
    let presses = plan
        .iter()
        .filter(|s| matches!(s, ReplayStep::Press { .. }))
        .count();
    assert_eq!(presses, 1);
}

#[test]
fn other_button_is_skipped_at_replay() {
    let r = Replayer::new(vec![click(5, 6, ButtonLabel::Other, 0.0)]);
    let plan = r.plan();
    assert_eq!(plan, vec![ReplayStep::MoveTo { target_us: 0, x: 5, y: 6 }]);
}

#[test]
fn monotonicity_check_spots_disorder() {
    let r = Replayer::new(vec![mv(1, 1, 1.0), mv(2, 2, 0.5)]);
    assert!(!r.is_monotone());
    let r = Replayer::new(vec![mv(1, 1, 0.5), mv(2, 2, 0.5), mv(3, 3, 0.6)]);
    assert!(r.is_monotone());
}

#[test]
fn settle_interval_is_a_few_milliseconds() {
    assert_eq!(SETTLE_US, 5000);
}
