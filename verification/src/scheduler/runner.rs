//! The runner: it lets a scheduler run its processes and reacts to what the
//! user asks.

use super::clock::{elapsed_micros, instant_now};
use super::process::Process;
use super::Scheduler;
use vstd::prelude::*;

verus! {

/// What the user asks of the runner.
#[derive(Clone, Copy, Debug, PartialEq, Eq, Structural)]
pub enum RunnerEvent {
    Quit,
    Pause,
    Resume,
    Step,
    /// Nothing was asked.
    Idle,
}

impl RunnerEvent {
    /// The event that a key stands for: `q` quits, `p` pauses, `r` resumes
    /// and `s` steps. Any other key, and any key pressed together with a
    /// modifier, stands for none.
    pub fn from_key(key: char, modified: bool) -> (event: Self)
        ensures
            event == if modified {
                RunnerEvent::Idle
            } else if key == 'q' {
                RunnerEvent::Quit
            } else if key == 'p' {
                RunnerEvent::Pause
            } else if key == 'r' {
                RunnerEvent::Resume
            } else if key == 's' {
                RunnerEvent::Step
            } else {
                RunnerEvent::Idle
            },
    {
        if modified {
            return RunnerEvent::Idle;
        }
        if key == 'q' {
            RunnerEvent::Quit
        } else if key == 'p' {
            RunnerEvent::Pause
        } else if key == 'r' {
            RunnerEvent::Resume
        } else if key == 's' {
            RunnerEvent::Step
        } else {
            RunnerEvent::Idle
        }
    }
}

/// Whether `after` is the queue `before` with each process in its place and
/// no processor time taken back.
pub open spec fn processes_kept(before: Seq<Process>, after: Seq<Process>) -> bool {
    &&& after.len() == before.len()
    &&& forall|index: int|
        0 <= index < before.len() ==> (#[trigger] before[index]).same_identity(&after[index])
            && after[index].spec_cpu_usage() >= before[index].spec_cpu_usage()
}

/// Runs the processes of a scheduler, one run at a time, unless paused.
pub struct ProcessRunner<S> {
    scheduler: S,
    paused: bool,
}

impl<S: Scheduler> ProcessRunner<S> {
    pub closed spec fn spec_scheduler(&self) -> S {
        self.scheduler
    }

    pub closed spec fn spec_paused(&self) -> bool {
        self.paused
    }

    /// Whether `later` is this runner after the processes may have run: the
    /// queue is kept, and neither the tick nor the time used was reduced.
    pub open spec fn ran_to(&self, later: &Self) -> bool {
        &&& processes_kept(self.spec_scheduler().queue(), later.spec_scheduler().queue())
        &&& later.spec_scheduler().tick_rate() == self.spec_scheduler().tick_rate()
        &&& later.spec_scheduler().elapsed() >= self.spec_scheduler().elapsed()
    }

    /// Whether `later` is this runner after one turn of its scheduler, with
    /// `output` to show for it. The current process is the one it was or the
    /// one that a poll with the given badness picks. Where the queue has a
    /// process in that place, that process alone has run: it is who it was
    /// and was charged for its time, as was the scheduler, and every other
    /// process is what it was. Where the place lies behind the queue, nothing
    /// has run: the queue and the time used are what they were, and the
    /// output is empty.
    pub open spec fn ran_once(&self, later: &Self, badness: Seq<i64>, output: Seq<char>) -> bool {
        let before = self.spec_scheduler();
        let after = later.spec_scheduler();
        let at = after.position();
        &&& at == before.position() || at == before.polled(badness)
        &&& after.tick_rate() == before.tick_rate()
        &&& after.queue().len() == before.queue().len()
        &&& forall|index: int|
            0 <= index < before.queue().len() && index != at ==> #[trigger] after.queue()[index]
                == before.queue()[index]
        &&& if 0 <= at < before.queue().len() {
            &&& before.queue()[at].same_identity(&after.queue()[at])
            &&& after.queue()[at].spec_cpu_usage() >= before.queue()[at].spec_cpu_usage()
            &&& after.elapsed() >= before.elapsed()
        } else {
            &&& after.queue() == before.queue()
            &&& after.elapsed() == before.elapsed()
            &&& output == Seq::<char>::empty()
        }
    }

    /// Whether `later` has the scheduler of this runner in the same state.
    pub open spec fn rested_to(&self, later: &Self) -> bool {
        &&& later.spec_scheduler().queue() == self.spec_scheduler().queue()
        &&& later.spec_scheduler().position() == self.spec_scheduler().position()
        &&& later.spec_scheduler().tick_rate() == self.spec_scheduler().tick_rate()
        &&& later.spec_scheduler().elapsed() == self.spec_scheduler().elapsed()
    }

    /// A runner for `scheduler` that is not paused.
    pub fn new(scheduler: S) -> (runner: Self)
        ensures
            runner.spec_scheduler() == scheduler,
            !runner.spec_paused(),
    {
        Self { scheduler, paused: false }
    }

    pub fn scheduler(&self) -> (scheduler: &S)
        ensures
            *scheduler == self.spec_scheduler(),
    {
        &self.scheduler
    }

    pub fn is_paused(&self) -> (paused: bool)
        ensures
            paused == self.spec_paused(),
    {
        self.paused
    }

    /// Lets the scheduler pick a process, runs it once and charges the
    /// scheduler with the time of the run. Returns the output of the run,
    /// and an empty one where there is no process to run. No other process
    /// is touched. Which process it is depends on the clock, and what it
    /// puts out on its task: `ran_once` says what holds whatever they do.
    pub fn run_process(&mut self, badness: &Vec<i64>) -> (output: String)
        requires
            badness@.len() == old(self).spec_scheduler().queue().len(),
        ensures
            final(self).spec_paused() == old(self).spec_paused(),
            old(self).ran_to(final(self)),
            old(self).ran_once(final(self), badness@, output@),
    {
        let output = if let Some(process) = self.scheduler.schedule(badness) {
            let start_time = instant_now();
            let output = process.run();
            let spent: u64 = elapsed_micros(&start_time);
            (output, spent)
        } else {
            (String::new(), 0)
        };
        self.scheduler.add_cpu_elapsed(output.1);
        output.0
    }

    /// The first half of a round: unless the runner is paused, one process
    /// is run. Returns what there is to show of it.
    pub fn advance(&mut self, badness: &Vec<i64>) -> (output: String)
        requires
            badness@.len() == old(self).spec_scheduler().queue().len(),
        ensures
            final(self).spec_paused() == old(self).spec_paused(),
            old(self).spec_paused() ==> old(self).rested_to(final(self)) && output@
                == Seq::<char>::empty(),
            !old(self).spec_paused() ==> old(self).ran_to(final(self)) && old(self).ran_once(
                final(self),
                badness@,
                output@,
            ),
    {
        if !self.paused {
            self.run_process(badness)
        } else {
            String::new()
        }
    }

    /// The second half of a round: what the runner does about an event.
    /// A pause stops the runner and a resume sets it going again, a step
    /// runs one process while the runner is paused, and a quit ends the
    /// work. Returns false if the program should quit.
    pub fn run(&mut self, event: RunnerEvent, badness: &Vec<i64>) -> (keep_running: bool)
        requires
            badness@.len() == old(self).spec_scheduler().queue().len(),
        ensures
            keep_running == (event != RunnerEvent::Quit),
            final(self).spec_paused() == match event {
                RunnerEvent::Pause => true,
                RunnerEvent::Resume => false,
                _ => old(self).spec_paused(),
            },
            event == RunnerEvent::Step && old(self).spec_paused() ==> old(self).ran_to(final(self)),
            !(event == RunnerEvent::Step && old(self).spec_paused()) ==> old(self).rested_to(
                final(self),
            ),
    {
        match event {
            RunnerEvent::Quit => {
                return false;
            },
            RunnerEvent::Pause => {
                if !self.paused {
                    self.paused = true;
                }
            },
            RunnerEvent::Resume => {
                if self.paused {
                    self.paused = false;
                }
            },
            RunnerEvent::Step => {
                if self.paused {
                    self.run_process(badness);
                }
            },
            RunnerEvent::Idle => {},
        }
        true
    }
}

} // verus!
