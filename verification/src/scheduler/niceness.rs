//! The scheduler that prefers the process of the least badness.

use super::clock::{elapsed_micros, instant_now};
use super::process::Process;
use super::{first_named, Scheduler, DEFAULT_TICK_RATE};
use vstd::prelude::*;

verus! {

/// Whether `index` is the place of the first of the least values.
pub open spec fn first_minimum(values: Seq<i64>, index: int) -> bool {
    &&& 0 <= index < values.len()
    &&& forall|other: int| 0 <= other < values.len() ==> values[index] <= #[trigger] values[other]
    &&& forall|earlier: int| 0 <= earlier < index ==> values[index] < #[trigger] values[earlier]
}

/// The place of the first of the least values, and 0 where there are fewer
/// than two values.
pub open spec fn least_bad(values: Seq<i64>) -> int {
    if values.len() < 2 {
        0
    } else {
        choose|index: int| first_minimum(values, index)
    }
}

/// The first of the least values has one place.
pub proof fn lemma_first_minimum_is_one(values: Seq<i64>, a: int, b: int)
    requires
        first_minimum(values, a),
        first_minimum(values, b),
    ensures
        a == b,
{
    if a < b {
        assert(values[b] < values[a]);
        assert(values[a] <= values[b]);
    } else if b < a {
        assert(values[a] < values[b]);
        assert(values[b] <= values[a]);
    }
}

/// A scheduler that runs the process of the least badness, and of several
/// such the one that was added first.
pub struct NicenessScheduler {
    processes: Vec<Process>,
    current_process: usize,
    tick_rate: u64,
    cpu_elapsed: u64,
    last_tick: std::time::Instant,
}

impl NicenessScheduler {
    pub fn new() -> (scheduler: Self)
        ensures
            scheduler.queue() == Seq::<Process>::empty(),
            scheduler.position() == 0,
            scheduler.elapsed() == 0,
            scheduler.tick_rate() == DEFAULT_TICK_RATE,
    {
        NicenessScheduler::with_processes(Vec::new(), DEFAULT_TICK_RATE)
    }

    /// A scheduler for the given processes that polls when more than
    /// `tick_rate` microseconds have passed since the last poll. The first
    /// process is the current one.
    pub fn with_processes(processes: Vec<Process>, tick_rate: u64) -> (scheduler: Self)
        ensures
            scheduler.queue() == processes@,
            scheduler.position() == 0,
            scheduler.elapsed() == 0,
            scheduler.tick_rate() == tick_rate,
    {
        Self { processes, current_process: 0, tick_rate, cpu_elapsed: 0, last_tick: instant_now() }
    }

    /// Find the process with the least badness, and make it the current
    /// process.
    pub fn poll_process(&mut self, badness: &Vec<i64>)
        requires
            badness@.len() == old(self).queue().len(),
        ensures
            final(self).queue() == old(self).queue(),
            final(self).elapsed() == old(self).elapsed(),
            final(self).tick_rate() == old(self).tick_rate(),
            final(self).position() == least_bad(badness@),
            badness@.len() >= 2 ==> first_minimum(badness@, final(self).position()),
    {
        if self.processes.len() < 2 {
            self.current_process = 0;
            return ;
        }
        let mut best: usize = 0;
        let mut index: usize = 1;
        while index < badness.len()
            invariant
                1 <= index <= badness@.len(),
                best < index,
                forall|other: int|
                    0 <= other < index ==> badness@[best as int] <= #[trigger] badness@[other],
                forall|earlier: int|
                    0 <= earlier < best ==> badness@[best as int] < #[trigger] badness@[earlier],
            decreases badness@.len() - index,
        {
            if badness[index] < badness[best] {
                best = index;
            }
            index += 1;
        }
        proof {
            let chosen = choose|chosen: int| first_minimum(badness@, chosen);
            assert(first_minimum(badness@, best as int));
            lemma_first_minimum_is_one(badness@, best as int, chosen);
        }
        self.current_process = best;
    }
}

impl Scheduler for NicenessScheduler {
    const NAME: &'static str = "Niceness Scheduler";

    closed spec fn queue(&self) -> Seq<Process> {
        self.processes@
    }

    closed spec fn position(&self) -> int {
        self.current_process as int
    }

    closed spec fn elapsed(&self) -> u64 {
        self.cpu_elapsed
    }

    closed spec fn tick_rate(&self) -> u64 {
        self.tick_rate
    }

    open spec fn polled(&self, badness: Seq<i64>) -> int {
        least_bad(badness)
    }

    fn processes(&self) -> (all: &Vec<Process>) {
        &self.processes
    }

    fn add_process(&mut self, process: Process) {
        self.processes.push(process);
    }

    fn remove_process(&mut self, process_name: String) -> (removed: Option<Process>) {
        let mut index: usize = 0;
        while index < self.processes.len()
            invariant
                self.processes@ == old(self).processes@,
                self.current_process == old(self).current_process,
                self.cpu_elapsed == old(self).cpu_elapsed,
                self.tick_rate == old(self).tick_rate,
                index <= self.processes@.len(),
                forall|earlier: int|
                    0 <= earlier < index ==> (#[trigger] self.processes@[earlier]).spec_name()
                        != process_name@,
            decreases self.processes@.len() - index,
        {
            if self.processes[index].name() == process_name {
                let removed = self.processes.remove(index);
                proof {
                    assert(first_named(old(self).queue(), process_name@, index as int));
                }
                return Some(removed);
            }
            index += 1;
        }
        None
    }

    fn poll_if_due(&mut self, waited: u64, badness: &Vec<i64>) -> (polled: bool) {
        if waited > self.tick_rate {
            self.poll_process(badness);
            true
        } else {
            false
        }
    }

    fn schedule(&mut self, badness: &Vec<i64>) -> (found: Option<&mut Process>) {
        let waited: u64 = elapsed_micros(&self.last_tick);
        if self.poll_if_due(waited, badness) {
            self.last_tick = instant_now();
        }
        self.current_process_mut()
    }

    fn current_process(&self) -> (found: Option<&Process>) {
        if self.current_process < self.processes.len() {
            Some(&self.processes[self.current_process])
        } else {
            None
        }
    }

    fn current_process_mut(&mut self) -> (found: Option<&mut Process>) {
        if self.current_process < self.processes.len() {
            Some(&mut self.processes[self.current_process])
        } else {
            None
        }
    }

    fn cpu_elapsed(&self) -> (micros: u64) {
        self.cpu_elapsed
    }

    fn add_cpu_elapsed(&mut self, elapsed: u64) {
        self.cpu_elapsed = self.cpu_elapsed.saturating_add(elapsed);
    }
}

} // verus!
