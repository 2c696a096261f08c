//! What the view loop makes of window events, and when it renders.

use vstd::prelude::*;

verus! {

pub const FRAMES_PER_SECOND: u64 = 30;

/// The length of one frame, in nanoseconds.
pub const NANOSECONDS_PER_FRAME: u64 = 1_000_000_000 / FRAMES_PER_SECOND;

/// A clock that ticks at a fixed interval and is asked, now and then, how
/// many ticks have passed.
pub struct IntervalTimer {
    every: u64,
    next: u64,
}

impl IntervalTimer {
    /// The time from one tick to the next.
    pub closed spec fn every(&self) -> u64 {
        self.every
    }

    /// The time of the next tick that was not counted yet.
    pub closed spec fn next(&self) -> u64 {
        self.next
    }

    /// What every timer satisfies: time passes from tick to tick.
    pub closed spec fn well_formed(&self) -> bool {
        self.every > 0
    }

    /// The number of ticks from the tick at `next` up to `now`, at one tick
    /// every `every`.
    pub open spec fn ticks(next: u64, every: u64, now: u64) -> int {
        if now < next {
            0
        } else {
            1 + (now - next) / (every as int)
        }
    }

    /// A timer that ticks every `every`, for the first time that long
    /// after `now`.
    pub fn new(every: u64, now: u64) -> (timer: IntervalTimer)
        requires
            every > 0,
            now + every <= u64::MAX,
        ensures
            timer.well_formed(),
            timer.every() == every,
            timer.next() == now + every,
    {
        IntervalTimer { every, next: now + every }
    }

    /// The number of ticks that have passed since the timer was last
    /// asked: those up to `now` that were not counted yet.
    pub fn update(&mut self, now: u64) -> (elapsed: u64)
        requires
            old(self).well_formed(),
            now + old(self).every() <= u64::MAX,
        ensures
            final(self).well_formed(),
            final(self).every() == old(self).every(),
            elapsed == Self::ticks(old(self).next(), old(self).every(), now),
            final(self).next() == old(self).next() + old(self).every() * elapsed,
            final(self).next() > now,
    {
        if now < self.next {
            0
        } else {
            let passed: u64 = now - self.next;
            let whole: u64 = passed / self.every;
            proof {
                vstd::arithmetic::div_mod::lemma_fundamental_div_mod(
                    passed as int,
                    self.every as int,
                );
                assert(self.every * (whole + 1) == self.every * whole + self.every)
                    by (nonlinear_arith);
                assert(0 <= self.every * whole) by (nonlinear_arith);
            }
            let elapsed: u64 = 1 + whole;
            self.next = self.next + self.every * elapsed;
            elapsed
        }
    }
}

/// The kinds of window events that the view loop tells apart.
#[derive(Debug, PartialEq, Eq, Copy, Clone, Structural)]
pub enum Event {
    /// No event is pending.
    Nothing,
    /// The user asked to quit.
    Quit,
    /// The system is ending the program.
    AppTerminating,
    /// The window got the focus.
    FocusGained,
    /// The window lost the focus.
    FocusLost,
    /// Any other event of the window itself.
    Window,
    /// Any event of keyboard or mouse.
    Input,
}

/// What the view loop has to do about an event.
#[derive(Debug, PartialEq, Eq, Copy, Clone, Structural)]
pub enum Step {
    /// The events are used up: go on with the frame.
    Drained,
    /// Tell the world to quit, and end the loop.
    Quit,
    /// Hide the cursor: the window captures it.
    HideCursor,
    /// Show the cursor: the window is in the background.
    ShowCursor,
    /// Pass the event over.
    Ignore,
    /// Hand the event on to be processed.
    Process,
}

/// What the view loop does about `event` while the window has the focus or
/// not. Input counts only while the window has the focus.
pub open spec fn step_for(has_focus: bool, event: Event) -> Step {
    match event {
        Event::Nothing => Step::Drained,
        Event::Quit => Step::Quit,
        Event::AppTerminating => Step::Quit,
        Event::FocusGained => Step::HideCursor,
        Event::FocusLost => Step::ShowCursor,
        Event::Window => Step::Ignore,
        Event::Input => if has_focus {
            Step::Process
        } else {
            Step::Ignore
        },
    }
}

/// Whether the window has the focus after `event`.
pub open spec fn focus_after(has_focus: bool, event: Event) -> bool {
    match event {
        Event::FocusGained => true,
        Event::FocusLost => false,
        _ => has_focus,
    }
}

/// Takes the view loop one event further: keeps track of the focus and
/// says what to do about the event.
pub fn view_thread(has_focus: &mut bool, event: Event) -> (step: Step)
    ensures
        step == step_for(*old(has_focus), event),
        *final(has_focus) == focus_after(*old(has_focus), event),
{
    match event {
        Event::Nothing => Step::Drained,
        Event::Quit => Step::Quit,
        Event::AppTerminating => Step::Quit,
        Event::FocusGained => {
            *has_focus = true;
            Step::HideCursor
        },
        Event::FocusLost => {
            *has_focus = false;
            Step::ShowCursor
        },
        Event::Window => Step::Ignore,
        Event::Input => {
            if *has_focus {
                Step::Process
            } else {
                Step::Ignore
            }
        },
    }
}

} // verus!
