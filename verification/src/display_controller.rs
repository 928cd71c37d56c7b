//! The decisions of the receiver's display controller: whether it runs, which
//! frame line it holds, and what the display loop does with that line.
//!
//! The controller starts stopped, holding a blank frame (64 `'0'`s). New lines
//! are accepted only while it runs, and are stored without their surrounding
//! white space. The display loop ends once the controller is stopped; until then,
//! on each turn, it checks the stored line: it draws the frame when the line is
//! valid and pauses 1 ms, pauses 10 ms when the line is invalid, and retries at
//! once when a valid line cannot be read as a number.
use vstd::prelude::*;

use crate::protocol::{
    binary_u64, frame_check, lemma_valid_frame_parses, FrameError, ProtocolParser, FRAME_BITS,
};
use crate::text::{trim, trimmed};

verus! {

/// Why the controller refused a request.
#[derive(Clone, Copy, Debug, PartialEq, Eq, Structural)]
pub enum ControlError {
    /// New data arrived while the display was stopped.
    NotRunning,
}

impl ControlError {
    /// The human-readable reason.
    pub fn description(&self) -> (r: &'static str)
        ensures
            r@ == "DisplayController is not running"@,
    {
        "DisplayController is not running"
    }
}

/// What one turn of the display loop does.
#[derive(Clone, Copy, Debug, PartialEq, Eq, Structural)]
pub enum FrameStep {
    /// Show this frame.
    Draw(u64),
    /// The held line is not a frame.
    Invalid(FrameError),
    /// The held line passed the check but could not be read as a number.
    Unreadable,
    /// The display is stopped: the loop ends.
    Stop,
}

impl FrameStep {
    /// How long the display loop pauses after this step, in milliseconds.
    pub fn pause_millis(&self) -> (ms: u64)
        ensures
            ms == pause_spec(*self),
    {
        match self {
            FrameStep::Draw(_) => 1,
            FrameStep::Invalid(_) => 10,
            FrameStep::Unreadable => 0,
            FrameStep::Stop => 0,
        }
    }
}

pub open spec fn pause_spec(step: FrameStep) -> u64 {
    match step {
        FrameStep::Draw(_) => 1,
        FrameStep::Invalid(_) => 10,
        FrameStep::Unreadable => 0,
        FrameStep::Stop => 0,
    }
}

/// What the display loop does with a held line.
pub open spec fn frame_step(line: Seq<char>) -> FrameStep {
    match frame_check(line) {
        Err(e) => FrameStep::Invalid(e),
        Ok(_) => match binary_u64(line) {
            Some(v) => FrameStep::Draw(v),
            None => FrameStep::Unreadable,
        },
    }
}

/// The frame the controller holds before any data arrives: all pixels off.
pub open spec fn blank_frame() -> Seq<char> {
    Seq::new(FRAME_BITS as nat, |i: int| '0')
}

/// The controller as seen from outside: whether it runs, and the line it holds.
pub struct ControllerView {
    pub running: bool,
    pub frame: Seq<char>,
}

/// The controller once started.
pub open spec fn started(v: ControllerView) -> ControllerView {
    ControllerView { running: true, frame: v.frame }
}

/// The controller once stopped.
pub open spec fn stopped(v: ControllerView) -> ControllerView {
    ControllerView { running: false, frame: v.frame }
}

/// The controller after new data arrives: stored, trimmed, only while running.
pub open spec fn after_update(v: ControllerView, data: Seq<char>) -> ControllerView {
    if v.running {
        ControllerView { running: true, frame: trimmed(data) }
    } else {
        v
    }
}

/// The answer to new data.
pub open spec fn update_result(v: ControllerView) -> Result<(), ControlError> {
    if v.running {
        Ok(())
    } else {
        Err(ControlError::NotRunning)
    }
}

/// The next step of the display loop.
pub open spec fn step_of(v: ControllerView) -> FrameStep {
    if v.running {
        frame_step(v.frame)
    } else {
        FrameStep::Stop
    }
}

/// The state of the display controller.
pub struct DisplayController {
    running: bool,
    frame: String,
}

impl View for DisplayController {
    type V = ControllerView;

    closed spec fn view(&self) -> ControllerView {
        ControllerView { running: self.running, frame: self.frame@ }
    }
}

impl DisplayController {
    /// A stopped controller holding the blank frame.
    pub fn new() -> (c: Self)
        ensures
            !c@.running,
            c@.frame == blank_frame(),
    {
        let mut frame = String::new();
        let mut i: usize = 0;
        proof {
            reveal_strlit("0");
        }
        while i < FRAME_BITS
            invariant
                i <= FRAME_BITS,
                "0"@ == seq!['0'],
                frame@ =~= Seq::new(i as nat, |k: int| '0'),
            decreases FRAME_BITS - i,
        {
            frame.append("0");
            i = i + 1;
        }
        DisplayController { running: false, frame }
    }

    /// Whether the display runs.
    pub fn is_running(&self) -> (r: bool)
        ensures
            r == self@.running,
    {
        self.running
    }

    /// The line the controller holds.
    pub fn frame(&self) -> (r: &String)
        ensures
            r@ == self@.frame,
    {
        &self.frame
    }

    /// Marks the display as running; `true` when it was stopped, that is, when the
    /// caller must launch the display loop.
    pub fn start(&mut self) -> (launch: bool)
        ensures
            launch == !old(self)@.running,
            final(self)@ == started(old(self)@),
    {
        if self.running {
            return false;
        }
        self.running = true;
        true
    }

    /// Marks the display as stopped; `true` when it was running, that is, when the
    /// caller must wait for the display loop to end.
    pub fn stop(&mut self) -> (join: bool)
        ensures
            join == old(self)@.running,
            final(self)@ == stopped(old(self)@),
    {
        if !self.running {
            return false;
        }
        self.running = false;
        true
    }

    /// Stores a new line, without its surrounding white space; refused while stopped.
    pub fn update_data(&mut self, new_data: String) -> (r: Result<(), ControlError>)
        ensures
            r == update_result(old(self)@),
            final(self)@ == after_update(old(self)@, new_data@),
    {
        if !self.running {
            return Err(ControlError::NotRunning);
        }
        self.frame = trim(new_data.as_str());
        Ok(())
    }

    /// What the display loop does next: it ends when the display is stopped, and
    /// otherwise acts on the held line.
    pub fn next_step(&self) -> (step: FrameStep)
        ensures
            step == step_of(self@),
    {
        if !self.running {
            return FrameStep::Stop;
        }
        match ProtocolParser::validate_frame_data(&self.frame) {
            Err(e) => FrameStep::Invalid(e),
            Ok(()) => match ProtocolParser::parse_frame_data(self.frame.clone()) {
                Some(v) => FrameStep::Draw(v),
                None => FrameStep::Unreadable,
            },
        }
    }
}

/// A line that passes the frame check is always drawn: the display loop never finds
/// a valid line that it cannot read.
pub proof fn lemma_valid_line_is_drawn(line: Seq<char>)
    requires
        frame_check(line) is Ok,
    ensures
        frame_step(line) == FrameStep::Draw(binary_u64(line)->0),
        pause_spec(frame_step(line)) == 1,
{
    lemma_valid_frame_parses(line);
}

/// The blank frame is drawn, as the all-off bitmap.
pub proof fn lemma_blank_frame_is_drawn()
    ensures
        frame_step(blank_frame()) == FrameStep::Draw(0),
{
    let s = blank_frame();
    assert(vstd::utf8::is_ascii_chars(s));
    vstd::utf8::is_ascii_chars_encode_utf8(s);
    assert(crate::protocol::all_binary(s)) by {
        assert forall|i: int| 0 <= i < s.len() implies #[trigger] crate::protocol::is_binary_digit(
            s[i],
        ) by {}
    }
    lemma_valid_frame_parses(s);
    lemma_blank_value(s.len());
}

proof fn lemma_blank_value(n: nat)
    ensures
        crate::protocol::binary_value(Seq::new(n, |i: int| '0')) == 0,
    decreases n,
{
    if n > 0 {
        assert(Seq::new(n, |i: int| '0').drop_last() =~= Seq::new((n - 1) as nat, |i: int| '0'));
        lemma_blank_value((n - 1) as nat);
    }
}

/// While the controller runs, the display loop acts next on the line just received,
/// without its surrounding white space.
pub proof fn lemma_update_then_step(v: ControllerView, data: Seq<char>)
    requires
        v.running,
    ensures
        update_result(v) is Ok,
        step_of(after_update(v, data)) == frame_step(trimmed(data)),
{
}

/// While the controller is stopped, new data is refused and changes nothing, and the
/// display loop ends.
pub proof fn lemma_stopped_refuses(v: ControllerView, data: Seq<char>)
    requires
        !v.running,
    ensures
        update_result(v) == Err::<(), ControlError>(ControlError::NotRunning),
        after_update(v, data) == v,
        step_of(v) == FrameStep::Stop,
{
}

/// Starting and stopping never change the held line; starting twice is starting once,
/// and so is stopping.
pub proof fn lemma_start_stop_keep_frame(v: ControllerView)
    ensures
        started(v).frame == v.frame,
        stopped(v).frame == v.frame,
        started(started(v)) == started(v),
        stopped(stopped(v)) == stopped(v),
        started(stopped(v)) == started(v),
{
}

/// One action of the display thread.
#[derive(Clone, Copy, Debug, PartialEq, Eq, Structural)]
pub enum LoopAction {
    /// Show this frame on the matrix.
    Draw(u64),
    /// Report that the held line is not a frame.
    ReportInvalid(FrameError),
    /// Report that the held line could not be read.
    ReportUnreadable,
    /// Wait this many milliseconds.
    Pause(u64),
    /// Reset the matrix (clear its shift registers).
    ResetMatrix,
    /// Leave the display loop.
    Exit,
}

/// The actions of one turn of a running display loop.
pub open spec fn turn_actions(step: FrameStep) -> Seq<LoopAction> {
    match step {
        FrameStep::Draw(v) => seq![LoopAction::Draw(v), LoopAction::Pause(pause_spec(step))],
        FrameStep::Invalid(e) => seq![
            LoopAction::ReportInvalid(e),
            LoopAction::Pause(pause_spec(step)),
        ],
        FrameStep::Unreadable => seq![LoopAction::ReportUnreadable],
        FrameStep::Stop => seq![LoopAction::ResetMatrix, LoopAction::Exit],
    }
}

/// One turn of the display loop: its actions, and whether the loop has finished after it.
pub open spec fn loop_turn(finished: bool, step: FrameStep) -> (Seq<LoopAction>, bool) {
    if finished {
        (seq![LoopAction::Exit], true)
    } else {
        (turn_actions(step), step == FrameStep::Stop)
    }
}

/// The actions of the display loop over a sequence of steps.
pub open spec fn run_loop(finished: bool, steps: Seq<FrameStep>) -> Seq<LoopAction>
    decreases steps.len(),
{
    if steps.len() == 0 {
        Seq::empty()
    } else {
        loop_turn(finished, steps[0]).0 + run_loop(loop_turn(finished, steps[0]).1, steps.drop_first())
    }
}

/// The display thread's loop: what to do with each step the controller gives.
pub struct DisplayLoop {
    finished: bool,
}

impl View for DisplayLoop {
    type V = bool;

    closed spec fn view(&self) -> bool {
        self.finished
    }
}

impl DisplayLoop {
    /// A loop that has not finished.
    pub fn new() -> (l: Self)
        ensures
            !l@,
    {
        DisplayLoop { finished: false }
    }

    /// Whether the loop has finished (the matrix has been reset).
    pub fn is_finished(&self) -> (r: bool)
        ensures
            r == self@,
    {
        self.finished
    }

    /// The actions for one step: draw and pause, report and pause, report, or (on the
    /// first stop) reset the matrix and leave; once finished, only leave.
    pub fn actions(&mut self, step: FrameStep) -> (acts: Vec<LoopAction>)
        ensures
            acts@ == loop_turn(old(self)@, step).0,
            final(self)@ == loop_turn(old(self)@, step).1,
            old(self)@ ==> acts@ == seq![LoopAction::Exit] && final(self)@,
            !old(self)@ ==> match step {
                FrameStep::Draw(v) => acts@ == seq![LoopAction::Draw(v), LoopAction::Pause(1)]
                    && !final(self)@,
                FrameStep::Invalid(e) => acts@ == seq![
                    LoopAction::ReportInvalid(e),
                    LoopAction::Pause(10),
                ] && !final(self)@,
                FrameStep::Unreadable => acts@ == seq![LoopAction::ReportUnreadable]
                    && !final(self)@,
                FrameStep::Stop => acts@ == seq![LoopAction::ResetMatrix, LoopAction::Exit]
                    && final(self)@,
            },
    {
        let mut acts: Vec<LoopAction> = Vec::new();
        if self.finished {
            acts.push(LoopAction::Exit);
        } else {
            match step {
                FrameStep::Draw(v) => {
                    acts.push(LoopAction::Draw(v));
                    acts.push(LoopAction::Pause(step.pause_millis()));
                },
                FrameStep::Invalid(e) => {
                    acts.push(LoopAction::ReportInvalid(e));
                    acts.push(LoopAction::Pause(step.pause_millis()));
                },
                FrameStep::Unreadable => {
                    acts.push(LoopAction::ReportUnreadable);
                },
                FrameStep::Stop => {
                    acts.push(LoopAction::ResetMatrix);
                    acts.push(LoopAction::Exit);
                    self.finished = true;
                },
            }
        }
        proof {
            assert(acts@ =~= loop_turn(old(self)@, step).0);
        }
        acts
    }
}

/// A finished loop only leaves.
pub proof fn lemma_finished_loop_only_exits(steps: Seq<FrameStep>)
    ensures
        forall|i: int| 0 <= i < run_loop(true, steps).len() ==> #[trigger] run_loop(true, steps)[i]
            == LoopAction::Exit,
    decreases steps.len(),
{
    if steps.len() > 0 {
        lemma_finished_loop_only_exits(steps.drop_first());
        let rest = run_loop(true, steps.drop_first());
        let a = run_loop(true, steps);
        assert(a == seq![LoopAction::Exit] + rest);
        assert forall|i: int| 0 <= i < a.len() implies #[trigger] a[i] == LoopAction::Exit by {
            if i > 0 {
                assert(a[i] == rest[i - 1]);
            }
        }
    }
}

/// Whatever steps the controller gives, the display loop resets the matrix at most
/// once, does nothing but leave after that reset (in particular it draws nothing),
/// and resets the matrix as soon as it is given a stop.
pub proof fn lemma_reset_once_at_stop(steps: Seq<FrameStep>)
    ensures
        forall|i: int, j: int|
            0 <= i < j < run_loop(false, steps).len() && #[trigger] run_loop(false, steps)[i]
                == LoopAction::ResetMatrix ==> #[trigger] run_loop(false, steps)[j]
                == LoopAction::Exit,
        (exists|k: int| 0 <= k < steps.len() && #[trigger] steps[k] == FrameStep::Stop) ==> exists|
            i: int,
        |
            0 <= i < run_loop(false, steps).len() && #[trigger] run_loop(false, steps)[i]
                == LoopAction::ResetMatrix,
    decreases steps.len(),
{
    if steps.len() > 0 {
        let tail = steps.drop_first();
        let a = run_loop(false, steps);
        let t = loop_turn(false, steps[0]).0;
        if steps[0] == FrameStep::Stop {
            lemma_finished_loop_only_exits(tail);
            let rest = run_loop(true, tail);
            assert(a == t + rest);
            assert forall|i: int, j: int|
                0 <= i < j < a.len() && #[trigger] a[i] == LoopAction::ResetMatrix implies #[trigger] a[j]
                == LoopAction::Exit by {
                if j >= 2 {
                    assert(a[j] == rest[j - 2]);
                }
            }
            assert(a[0] == LoopAction::ResetMatrix);
        } else {
            lemma_reset_once_at_stop(tail);
            let rest = run_loop(false, tail);
            assert(a == t + rest);
            let n = t.len() as int;
            assert(forall|i: int| 0 <= i < n ==> t[i] != LoopAction::ResetMatrix && t[i] != LoopAction::Exit);
            assert forall|i: int, j: int|
                0 <= i < j < a.len() && #[trigger] a[i] == LoopAction::ResetMatrix implies #[trigger] a[j]
                == LoopAction::Exit by {
                if i < n {
                    assert(a[i] == t[i]);
                } else {
                    assert(a[i] == rest[i - n]);
                    assert(a[j] == rest[j - n]);
                }
            }
            if exists|k: int| 0 <= k < steps.len() && #[trigger] steps[k] == FrameStep::Stop {
                let k = choose|k: int| 0 <= k < steps.len() && #[trigger] steps[k] == FrameStep::Stop;
                assert(k > 0);
                assert(tail[k - 1] == FrameStep::Stop);
                let i = choose|i: int| 0 <= i < rest.len() && #[trigger] rest[i] == LoopAction::ResetMatrix;
                assert(a[n + i] == LoopAction::ResetMatrix);
            }
        }
    }
}

/// Each turn of a running loop: every frame given is drawn as that bitmap (the all-off
/// one too) and followed by a 1 ms pause; an invalid line is reported and followed by a
/// 10 ms pause; an unreadable one is reported; a stop resets the matrix and leaves.
pub proof fn lemma_running_turns(v: u64, e: FrameError)
    ensures
        loop_turn(false, FrameStep::Draw(v)) == (
            seq![LoopAction::Draw(v), LoopAction::Pause(1)],
            false,
        ),
        loop_turn(false, FrameStep::Invalid(e)) == (
            seq![LoopAction::ReportInvalid(e), LoopAction::Pause(10)],
            false,
        ),
        loop_turn(false, FrameStep::Unreadable) == (seq![LoopAction::ReportUnreadable], false),
        loop_turn(false, FrameStep::Stop) == (
            seq![LoopAction::ResetMatrix, LoopAction::Exit],
            true,
        ),
{
}

/// Every frame the controller gives before a stop is drawn: over any run of the loop,
/// each bitmap given before the first stop, the all-off one too, is among the draws.
pub proof fn lemma_every_frame_drawn(steps: Seq<FrameStep>, k: int)
    requires
        0 <= k < steps.len(),
        forall|j: int| 0 <= j <= k ==> steps[j] != FrameStep::Stop,
        steps[k] matches FrameStep::Draw(_),
    ensures
        run_loop(false, steps).contains(LoopAction::Draw(steps[k]->Draw_0)),
    decreases k,
{
    let t = loop_turn(false, steps[0]).0;
    let rest = run_loop(false, steps.drop_first());
    assert(run_loop(false, steps) == t + rest);
    if k == 0 {
        assert((t + rest)[0] == LoopAction::Draw(steps[0]->Draw_0));
    } else {
        assert(steps[0] != FrameStep::Stop);
        lemma_every_frame_drawn(steps.drop_first(), k - 1);
        let i = choose|i: int| 0 <= i < rest.len() && rest[i] == LoopAction::Draw(steps[k]->Draw_0);
        assert((t + rest)[t.len() + i] == rest[i]);
    }
}

} // verus!
