//! The scheduler that takes the processes in turn.

use super::clock::{elapsed_micros, instant_now};
use super::process::Process;
use super::{first_named, Scheduler, DEFAULT_TICK_RATE};
use vstd::prelude::*;

verus! {

/// The place behind `position` in a queue of `len` processes, and the first
/// place behind the last.
pub open spec fn next_in_turn(position: int, len: int) -> int {
    if position + 1 >= len {
        0
    } else {
        position + 1
    }
}

/// A scheduler that runs the processes in turn, in the order in which they
/// were added.
pub struct RoundRobinScheduler {
    processes: Vec<Process>,
    current_process: usize,
    tick_rate: u64,
    cpu_elapsed: u64,
    last_tick: std::time::Instant,
}

impl RoundRobinScheduler {
    pub fn new() -> (scheduler: Self)
        ensures
            scheduler.queue() == Seq::<Process>::empty(),
            scheduler.position() == 0,
            scheduler.elapsed() == 0,
            scheduler.tick_rate() == DEFAULT_TICK_RATE,
    {
        RoundRobinScheduler::with_processes(Vec::new(), DEFAULT_TICK_RATE)
    }

    /// A scheduler for the given processes that polls when more than
    /// `tick_rate` microseconds have passed since the last poll. The first
    /// process is the current one.
    pub fn with_processes(processes: Vec<Process>, tick_rate: u64) -> (scheduler: Self)
        ensures
            scheduler.queue() == processes@,
            scheduler.position() == 0,
            scheduler.elapsed() == 0,
            scheduler.tick_rate() == tick_rate,
    {
        Self { processes, current_process: 0, tick_rate, cpu_elapsed: 0, last_tick: instant_now() }
    }

    /// Makes the next process in the queue the current one, and the first
    /// after the last.
    pub fn poll_process(&mut self)
        ensures
            final(self).queue() == old(self).queue(),
            final(self).elapsed() == old(self).elapsed(),
            final(self).tick_rate() == old(self).tick_rate(),
            final(self).position() == next_in_turn(
                old(self).position(),
                old(self).queue().len() as int,
            ),
    {
        if self.current_process >= self.processes.len() || self.current_process + 1
            >= self.processes.len() {
            self.current_process = 0;
        } else {
            self.current_process += 1;
        }
    }
}

impl Scheduler for RoundRobinScheduler {
    const NAME: &'static str = "Round Robin Scheduler";

    closed spec fn queue(&self) -> Seq<Process> {
        self.processes@
    }

    closed spec fn position(&self) -> int {
        self.current_process as int
    }

    closed spec fn elapsed(&self) -> u64 {
        self.cpu_elapsed
    }

    closed spec fn tick_rate(&self) -> u64 {
        self.tick_rate
    }

    open spec fn polled(&self, badness: Seq<i64>) -> int {
        next_in_turn(self.position(), self.queue().len() as int)
    }

    fn processes(&self) -> (all: &Vec<Process>) {
        &self.processes
    }

    fn add_process(&mut self, process: Process) {
        self.processes.push(process);
    }

    fn remove_process(&mut self, process_name: String) -> (removed: Option<Process>) {
        let mut index: usize = 0;
        while index < self.processes.len()
            invariant
                self.processes@ == old(self).processes@,
                self.current_process == old(self).current_process,
                self.cpu_elapsed == old(self).cpu_elapsed,
                self.tick_rate == old(self).tick_rate,
                index <= self.processes@.len(),
                forall|earlier: int|
                    0 <= earlier < index ==> (#[trigger] self.processes@[earlier]).spec_name()
                        != process_name@,
            decreases self.processes@.len() - index,
        {
            if self.processes[index].name() == process_name {
                let removed = self.processes.remove(index);
                proof {
                    assert(first_named(old(self).queue(), process_name@, index as int));
                }
                return Some(removed);
            }
            index += 1;
        }
        None
    }

    fn poll_if_due(&mut self, waited: u64, badness: &Vec<i64>) -> (polled: bool) {
        if waited > self.tick_rate {
            self.poll_process();
            true
        } else {
            false
        }
    }

    fn schedule(&mut self, badness: &Vec<i64>) -> (found: Option<&mut Process>) {
        let waited: u64 = elapsed_micros(&self.last_tick);
        if self.poll_if_due(waited, badness) {
            self.last_tick = instant_now();
        }
        self.current_process_mut()
    }

    fn current_process(&self) -> (found: Option<&Process>) {
        if self.current_process < self.processes.len() {
            Some(&self.processes[self.current_process])
        } else {
            None
        }
    }

    fn current_process_mut(&mut self) -> (found: Option<&mut Process>) {
        if self.current_process < self.processes.len() {
            Some(&mut self.processes[self.current_process])
        } else {
            None
        }
    }

    fn cpu_elapsed(&self) -> (micros: u64) {
        self.cpu_elapsed
    }

    fn add_cpu_elapsed(&mut self, elapsed: u64) {
        self.cpu_elapsed = self.cpu_elapsed.saturating_add(elapsed);
    }
}

} // verus!
