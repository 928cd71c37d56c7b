use matrix_stream::display_controller::{
    ControlError, DisplayController, DisplayLoop, FrameStep, LoopAction,
};
use matrix_stream::protocol::FrameError;

#[test]
fn new_controller_is_stopped_and_blank() {
    let mut c = DisplayController::new();
    assert!(!c.is_running());
    assert_eq!(c.next_step(), FrameStep::Stop);
    c.start();
    assert_eq!(c.next_step(), FrameStep::Draw(0));
}

#[test]
fn update_refused_while_stopped() {
    let mut c = DisplayController::new();
    assert_eq!(c.update_data("1".repeat(64)), Err(ControlError::NotRunning));
    c.start();
    assert_eq!(c.next_step(), FrameStep::Draw(0));
    assert_eq!(ControlError::NotRunning.description(), "DisplayController is not running");
}

#[test]
fn start_and_stop_are_idempotent() {
    let mut c = DisplayController::new();
    assert!(c.start());
    assert!(!c.start());
    assert!(c.is_running());
    assert!(c.stop());
    assert!(!c.stop());
    assert!(!c.is_running());
}

#[test]
fn update_trims_and_draws() {
    let mut c = DisplayController::new();
    c.start();
    let line = format!("  {}\r\n", "1".repeat(64));
    assert_eq!(c.update_data(line), Ok(()));
    assert_eq!(c.next_step(), FrameStep::Draw(u64::MAX));
    assert_eq!(c.next_step().pause_millis(), 1);
}

#[test]
fn unicode_white_space_is_trimmed() {
    let mut c = DisplayController::new();
    c.start();
    let line = format!("\u{3000}\u{a0}{}\u{2029}", "0".repeat(63) + "1");
    assert_eq!(c.update_data(line), Ok(()));
    assert_eq!(c.next_step(), FrameStep::Draw(1));
}

#[test]
fn invalid_lines_pause_longer() {
    let mut c = DisplayController::new();
    c.start();
    assert_eq!(c.update_data("0101".to_string()), Ok(()));
    assert_eq!(c.next_step(), FrameStep::Invalid(FrameError::InvalidLength));
    assert_eq!(c.next_step().pause_millis(), 10);
    assert_eq!(c.update_data("a".repeat(64)), Ok(()));
    assert_eq!(c.next_step(), FrameStep::Invalid(FrameError::InvalidContent));
    assert_eq!(FrameStep::Unreadable.pause_millis(), 0);
}

#[test]
fn stopping_keeps_the_frame() {
    let mut c = DisplayController::new();
    c.start();
    let line = "0".repeat(62) + "11";
    assert_eq!(c.update_data(line), Ok(()));
    c.stop();
    assert_eq!(c.next_step(), FrameStep::Stop);
    assert_eq!(FrameStep::Stop.pause_millis(), 0);
    c.start();
    assert_eq!(c.next_step(), FrameStep::Draw(3));
}

#[test]
fn frame_holds_the_trimmed_line() {
    let mut c = DisplayController::new();
    assert_eq!(c.frame(), &"0".repeat(64));
    c.start();
    c.update_data(" 01 ".to_string()).unwrap();
    assert_eq!(c.frame(), "01");
}

#[test]
fn display_loop_actions() {
    let mut l = DisplayLoop::new();
    assert!(!l.is_finished());
    assert_eq!(l.actions(FrameStep::Draw(7)), vec![LoopAction::Draw(7), LoopAction::Pause(1)]);
    assert_eq!(
        l.actions(FrameStep::Invalid(FrameError::InvalidLength)),
        vec![LoopAction::ReportInvalid(FrameError::InvalidLength), LoopAction::Pause(10)]
    );
    assert_eq!(l.actions(FrameStep::Unreadable), vec![LoopAction::ReportUnreadable]);
    assert!(!l.is_finished());
    assert_eq!(l.actions(FrameStep::Stop), vec![LoopAction::ResetMatrix, LoopAction::Exit]);
    assert!(l.is_finished());
    assert_eq!(l.actions(FrameStep::Draw(1)), vec![LoopAction::Exit]);
    assert_eq!(l.actions(FrameStep::Stop), vec![LoopAction::Exit]);
}

#[test]
fn stopping_the_controller_resets_the_matrix_once() {
    let mut c = DisplayController::new();
    c.start();
    let mut l = DisplayLoop::new();
    let mut actions = Vec::new();
    actions.extend(l.actions(c.next_step()));
    c.stop();
    actions.extend(l.actions(c.next_step()));
    actions.extend(l.actions(c.next_step()));
    assert_eq!(actions.iter().filter(|a| **a == LoopAction::ResetMatrix).count(), 1);
    let reset_at = actions.iter().position(|a| *a == LoopAction::ResetMatrix).unwrap();
    assert!(actions[reset_at + 1..].iter().all(|a| *a == LoopAction::Exit));
}
