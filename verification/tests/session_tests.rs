use mouse_replay::session::{Controller, Directive, InputEvent, SessionState};
use mouse_replay::tracker::Tracker;
use mouse_replay::{ButtonLabel, MouseEvent};

#[test]
fn controller_starts_idle() {
    let c = Controller::new();
    assert_eq!(c.current_state(), SessionState::Idle);
}

#[test]
fn toggle_starts_and_stops_recording() {
    let mut c = Controller::new();
    let d = c.handle(InputEvent::ToggleKey, 0);
    assert!(matches!(d, Directive::NoAction));
    assert_eq!(c.current_state(), SessionState::Recording);
    let d = c.handle(InputEvent::ToggleKey, 10);
    match d {
        Directive::Save { timeline } => assert!(timeline.is_empty()),
        _ => panic!("expected a save directive"),
    }
    assert_eq!(c.current_state(), SessionState::Idle);
}

#[test]
fn moves_are_recorded_in_order() {
    let mut c = Controller::new();
    c.handle(InputEvent::ToggleKey, 0);
    c.handle(InputEvent::PointerMove { x: 1, y: 2 }, 100);
    c.handle(InputEvent::PointerMove { x: 3, y: 4 }, 200);
    let d = c.handle(InputEvent::ToggleKey, 300);
    match d {
        Directive::Save { timeline } => {
            assert_eq!(
                timeline,
                vec![
                    MouseEvent { x: 1, y: 2, button: None, time_us: 100 },
                    MouseEvent { x: 3, y: 4, button: None, time_us: 200 },
                ]
            );
        },
        _ => panic!("expected a save directive"),
    }
}

#[test]
fn click_lands_at_last_seen_position() {
    let mut c = Controller::new();
    c.handle(InputEvent::ToggleKey, 0);
    c.handle(InputEvent::PointerMove { x: 11, y: 22 }, 100);
    c.handle(InputEvent::ButtonPress { button: ButtonLabel::Left }, 150);
    let d = c.handle(InputEvent::ToggleKey, 300);
    match d {
        Directive::Save { timeline } => {
            assert_eq!(
                timeline[1],
                MouseEvent { x: 11, y: 22, button: Some(ButtonLabel::Left), time_us: 150 }
            );
        },
        _ => panic!("expected a save directive"),
    }
}

#[test]
fn click_before_any_move_lands_at_origin() {
    let mut c = Controller::new();
    c.handle(InputEvent::ToggleKey, 0);
    c.handle(InputEvent::ButtonPress { button: ButtonLabel::Right }, 5);
    let d = c.handle(InputEvent::ToggleKey, 10);
    match d {
        Directive::Save { timeline } => {
            assert_eq!(
                timeline[0],
                MouseEvent { x: 0, y: 0, button: Some(ButtonLabel::Right), time_us: 5 }
            );
        },
        _ => panic!("expected a save directive"),
    }
}

#[test]
fn events_outside_recording_are_dropped() {
    let mut c = Controller::new();
    let d = c.handle(InputEvent::PointerMove { x: 9, y: 9 }, 1);
    assert!(matches!(d, Directive::NoAction));
    let d = c.handle(InputEvent::ButtonPress { button: ButtonLabel::Left }, 2);
    assert!(matches!(d, Directive::NoAction));
    // Nothing was buffered: a recording started later sees none of it.
    c.handle(InputEvent::ToggleKey, 3);
    let d = c.handle(InputEvent::ToggleKey, 4);
    match d {
        Directive::Save { timeline } => assert!(timeline.is_empty()),
        _ => panic!("expected a save directive"),
    }
}

#[test]
fn replay_while_recording_saves_first() {
    let mut c = Controller::new();
    c.handle(InputEvent::ToggleKey, 0);
    c.handle(InputEvent::PointerMove { x: 1, y: 1 }, 10);
    let d = c.handle(InputEvent::ReplayKey, 20);
    match d {
        Directive::SaveThenReplay { timeline } => {
            assert_eq!(timeline.len(), 1);
            assert_eq!(timeline[0].time_us, 10);
        },
        _ => panic!("expected save-then-replay"),
    }
    assert_eq!(c.current_state(), SessionState::Replaying);
    c.replay_finished();
    assert_eq!(c.current_state(), SessionState::Idle);
}

#[test]
fn detached_timeline_never_sees_later_appends() {
    let mut c = Controller::new();
    c.handle(InputEvent::ToggleKey, 0);
    c.handle(InputEvent::PointerMove { x: 1, y: 1 }, 10);
    let d = c.handle(InputEvent::ReplayKey, 20);
    let taken = match d {
        Directive::SaveThenReplay { timeline } => timeline,
        _ => panic!("expected save-then-replay"),
    };
    c.replay_finished();
    // A later recording appends to a fresh timeline, not the detached one.
    c.handle(InputEvent::ToggleKey, 30);
    c.handle(InputEvent::PointerMove { x: 2, y: 2 }, 40);
    assert_eq!(taken.len(), 1);
    let d = c.handle(InputEvent::ToggleKey, 50);
    match d {
        Directive::Save { timeline } => {
            assert_eq!(timeline.len(), 1);
            assert_eq!(timeline[0].x, 2);
        },
        _ => panic!("expected a save directive"),
    }
}

#[test]
fn replay_from_idle() {
    let mut c = Controller::new();
    let d = c.handle(InputEvent::ReplayKey, 0);
    assert!(matches!(d, Directive::Replay));
    assert_eq!(c.current_state(), SessionState::Replaying);
    c.replay_finished();
    assert_eq!(c.current_state(), SessionState::Idle);
}

#[test]
fn exit_saves_an_active_recording() {
    let mut c = Controller::new();
    c.handle(InputEvent::ToggleKey, 0);
    c.handle(InputEvent::PointerMove { x: 5, y: 5 }, 10);
    let d = c.handle(InputEvent::ExitKey, 20);
    match d {
        Directive::SaveThenExit { timeline } => assert_eq!(timeline.len(), 1),
        _ => panic!("expected save-then-exit"),
    }
    let mut c = Controller::new();
    let d = c.handle(InputEvent::ExitKey, 0);
    assert!(matches!(d, Directive::Exit));
}

#[test]
fn tracker_take_detaches_and_resets() {
    let mut t = Tracker::new();
    t.add_event(1, 2, None, 10);
    t.add_event(3, 4, Some(ButtonLabel::Middle), 20);
    assert_eq!(t.len(), 2);
    let taken = t.take();
    assert_eq!(taken.len(), 2);
    assert_eq!(taken[0], MouseEvent { x: 1, y: 2, button: None, time_us: 10 });
    assert_eq!(t.len(), 0);
    t.add_event(5, 6, None, 30);
    assert_eq!(taken.len(), 2);
    assert_eq!(t.len(), 1);
}
