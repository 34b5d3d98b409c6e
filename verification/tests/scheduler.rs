use mini_kernel::scheduler::clock::saturate;
use mini_kernel::scheduler::{
    CounterTask, NicenessScheduler, Process, ProcessRunner, RoundRobinScheduler, RunnerEvent,
    Scheduler, Task,
};

fn process(pid: u32, name: &str) -> Process {
    Process::named(pid, name, Box::new(CounterTask::new()))
}

fn names<S: Scheduler>(scheduler: &S) -> Vec<String> {
    scheduler
        .processes()
        .iter()
        .map(|process| process.name())
        .collect()
}

#[test]
fn counter_task_counts_its_runs() {
    let mut task = CounterTask::new();
    assert_eq!(task.run(), "1");
    assert_eq!(task.run(), "2");
    for _ in 0..8 {
        task.run();
    }
    assert_eq!(task.run(), "11");
}

#[test]
fn process_knows_who_it_is() {
    let plain = Process::new(7, Box::new(CounterTask::new()));
    assert_eq!(plain.pid(), 7);
    assert_eq!(plain.name(), "");
    assert_eq!(plain.niceness(), 0);
    assert_eq!(plain.cpu_usage(), 0);
    let named = Process::named(8, "Process 3", Box::new(CounterTask::new()));
    assert_eq!(named.pid(), 8);
    assert_eq!(named.name(), "Process 3");
    assert_eq!(named.niceness(), 0);
    let nice = Process::with_niceness(3, "Process 2", Box::new(CounterTask::new()), -19);
    assert_eq!(nice.pid(), 3);
    assert_eq!(nice.name(), "Process 2");
    assert_eq!(nice.niceness(), -19);
}

#[test]
fn process_run_gives_the_output_of_its_task() {
    let mut process = process(1, "one");
    assert_eq!(process.run(), "1");
    assert_eq!(process.run(), "2");
    assert_eq!(process.pid(), 1);
    assert_eq!(process.name(), "one");
}

#[test]
fn process_is_charged_for_its_time() {
    let mut process = process(1, "one");
    process.charge(250);
    process.charge(50);
    assert_eq!(process.cpu_usage(), 300);
    process.charge(u64::MAX);
    assert_eq!(process.cpu_usage(), u64::MAX);
}

#[test]
fn schedulers_have_their_names() {
    assert_eq!(NicenessScheduler::NAME, "Niceness Scheduler");
    assert_eq!(RoundRobinScheduler::NAME, "Round Robin Scheduler");
}

#[test]
fn new_scheduler_is_empty() {
    let mut niceness = NicenessScheduler::new();
    assert!(niceness.processes().is_empty());
    assert!(niceness.current_process().is_none());
    assert!(niceness.current_process_mut().is_none());
    assert_eq!(niceness.cpu_elapsed(), 0);
    let round_robin = RoundRobinScheduler::new();
    assert!(round_robin.processes().is_empty());
    assert!(round_robin.current_process().is_none());
}

#[test]
fn scheduler_adds_and_removes_processes() {
    let mut scheduler =
        RoundRobinScheduler::with_processes(vec![process(0, "a"), process(1, "b")], 500_000);
    scheduler.add_process(process(2, "c"));
    scheduler.add_process(process(3, "b"));
    assert_eq!(names(&scheduler), ["a", "b", "c", "b"]);
    // the first of the name goes
    let removed = scheduler.remove_process("b".to_string()).unwrap();
    assert_eq!(removed.pid(), 1);
    assert_eq!(names(&scheduler), ["a", "c", "b"]);
    assert!(scheduler.remove_process("d".to_string()).is_none());
    assert_eq!(names(&scheduler), ["a", "c", "b"]);
}

#[test]
fn scheduler_sums_up_the_time_used() {
    let mut scheduler = NicenessScheduler::new();
    scheduler.add_cpu_elapsed(100);
    scheduler.add_cpu_elapsed(23);
    assert_eq!(scheduler.cpu_elapsed(), 123);
    scheduler.add_cpu_elapsed(u64::MAX);
    assert_eq!(scheduler.cpu_elapsed(), u64::MAX);
}

#[test]
fn round_robin_takes_the_processes_in_turn() {
    let mut scheduler = RoundRobinScheduler::with_processes(
        vec![process(0, "a"), process(1, "b"), process(2, "c")],
        500_000,
    );
    assert_eq!(scheduler.current_process().unwrap().pid(), 0);
    scheduler.poll_process();
    assert_eq!(scheduler.current_process().unwrap().pid(), 1);
    scheduler.poll_process();
    assert_eq!(scheduler.current_process().unwrap().pid(), 2);
    scheduler.poll_process();
    assert_eq!(scheduler.current_process().unwrap().pid(), 0);
}

#[test]
fn round_robin_starts_again_after_the_queue_has_shrunk() {
    let mut scheduler =
        RoundRobinScheduler::with_processes(vec![process(0, "a"), process(1, "b")], 500_000);
    scheduler.poll_process();
    assert!(scheduler.remove_process("b".to_string()).is_some());
    // the current place lies behind the queue
    assert!(scheduler.current_process().is_none());
    scheduler.poll_process();
    assert_eq!(scheduler.current_process().unwrap().pid(), 0);
}

#[test]
fn scheduler_polls_only_after_a_tick() {
    let mut scheduler =
        RoundRobinScheduler::with_processes(vec![process(0, "a"), process(1, "b")], 500_000);
    let badness = vec![0, 0];
    assert!(!scheduler.poll_if_due(500_000, &badness));
    assert_eq!(scheduler.current_process().unwrap().pid(), 0);
    assert!(scheduler.poll_if_due(500_001, &badness));
    assert_eq!(scheduler.current_process().unwrap().pid(), 1);
}

#[test]
fn niceness_takes_the_first_of_the_least_bad() {
    let mut scheduler = NicenessScheduler::with_processes(
        vec![
            process(0, "a"),
            process(1, "b"),
            process(2, "c"),
            process(3, "d"),
        ],
        500_000,
    );
    scheduler.poll_process(&vec![20, -4, 7, -4]);
    assert_eq!(scheduler.current_process().unwrap().pid(), 1);
    scheduler.poll_process(&vec![20, 40, 7, 9]);
    assert_eq!(scheduler.current_process().unwrap().pid(), 2);
    scheduler.poll_process(&vec![i64::MIN, 40, 7, i64::MIN]);
    assert_eq!(scheduler.current_process().unwrap().pid(), 0);
    assert!(scheduler.poll_if_due(500_001, &vec![1, 1, 1, 0]));
    assert_eq!(scheduler.current_process().unwrap().pid(), 3);
    assert!(!scheduler.poll_if_due(1, &vec![0, 1, 1, 1]));
    assert_eq!(scheduler.current_process().unwrap().pid(), 3);
}

#[test]
fn niceness_with_fewer_than_two_processes_takes_the_first() {
    let mut scheduler = NicenessScheduler::with_processes(vec![process(5, "a")], 500_000);
    scheduler.poll_process(&vec![9]);
    assert_eq!(scheduler.current_process().unwrap().pid(), 5);
    let mut empty = NicenessScheduler::new();
    empty.poll_process(&vec![]);
    assert!(empty.current_process().is_none());
}

#[test]
fn schedule_hands_out_the_current_process() {
    let mut scheduler =
        RoundRobinScheduler::with_processes(vec![process(0, "a"), process(1, "b")], u64::MAX);
    // a tick of u64::MAX never passes
    let found = scheduler.schedule(&vec![0, 0]).unwrap();
    assert_eq!(found.pid(), 0);
    assert_eq!(found.run(), "1");
    assert_eq!(scheduler.schedule(&vec![0, 0]).unwrap().run(), "2");
    assert!(RoundRobinScheduler::new().schedule(&vec![]).is_none());
}

#[test]
fn keys_stand_for_events() {
    assert_eq!(RunnerEvent::from_key('q', false), RunnerEvent::Quit);
    assert_eq!(RunnerEvent::from_key('p', false), RunnerEvent::Pause);
    assert_eq!(RunnerEvent::from_key('r', false), RunnerEvent::Resume);
    assert_eq!(RunnerEvent::from_key('s', false), RunnerEvent::Step);
    assert_eq!(RunnerEvent::from_key('x', false), RunnerEvent::Idle);
    assert_eq!(RunnerEvent::from_key('Q', false), RunnerEvent::Idle);
    assert_eq!(RunnerEvent::from_key('q', true), RunnerEvent::Idle);
}

#[test]
fn runner_runs_a_process_unless_paused() {
    let scheduler = RoundRobinScheduler::with_processes(vec![process(0, "a")], u64::MAX);
    let mut runner = ProcessRunner::new(scheduler);
    let badness = vec![0];
    assert!(!runner.is_paused());
    assert_eq!(runner.advance(&badness), "1");
    assert_eq!(runner.advance(&badness), "2");
    assert!(runner.run(RunnerEvent::Pause, &badness));
    assert!(runner.is_paused());
    assert_eq!(runner.advance(&badness), "");
    // a step runs the process once, though nothing shows it
    assert!(runner.run(RunnerEvent::Step, &badness));
    assert!(runner.run(RunnerEvent::Idle, &badness));
    assert!(runner.run(RunnerEvent::Resume, &badness));
    assert!(!runner.is_paused());
    assert_eq!(runner.advance(&badness), "4");
    assert_eq!(runner.scheduler().processes().len(), 1);
}

#[test]
fn runner_steps_only_while_paused_and_quits_when_asked() {
    let scheduler = RoundRobinScheduler::with_processes(vec![process(0, "a")], u64::MAX);
    let mut runner = ProcessRunner::new(scheduler);
    let badness = vec![0];
    assert!(runner.run(RunnerEvent::Step, &badness));
    assert!(runner.run(RunnerEvent::Resume, &badness));
    assert!(!runner.is_paused());
    assert_eq!(runner.run_process(&badness), "1");
    assert!(!runner.run(RunnerEvent::Quit, &badness));
    let empty = ProcessRunner::new(NicenessScheduler::new());
    assert!(!empty.is_paused());
}

#[test]
fn runner_without_processes_shows_nothing() {
    let mut runner = ProcessRunner::new(NicenessScheduler::new());
    assert_eq!(runner.advance(&vec![]), "");
    assert_eq!(runner.run_process(&vec![]), "");
}

#[test]
fn microseconds_stop_at_the_largest_number() {
    assert_eq!(saturate(0), 0);
    assert_eq!(saturate(1_500_000), 1_500_000);
    assert_eq!(saturate(u64::MAX as u128), u64::MAX);
    assert_eq!(saturate(u64::MAX as u128 + 1), u64::MAX);
    assert_eq!(saturate(u128::MAX), u64::MAX);
}

#[test]
fn a_turn_runs_the_current_process_and_no_other() {
    let scheduler =
        RoundRobinScheduler::with_processes(vec![process(0, "a"), process(1, "b")], u64::MAX);
    let mut runner = ProcessRunner::new(scheduler);
    let badness = vec![0, 0];
    assert_eq!(runner.run_process(&badness), "1");
    assert_eq!(runner.advance(&badness), "2");
    let used = runner.scheduler().processes()[0].cpu_usage();
    assert_eq!(runner.scheduler().processes()[1].cpu_usage(), 0);
    assert_eq!(runner.scheduler().current_process().unwrap().pid(), 0);
    assert!(runner.scheduler().cpu_elapsed() >= used);
    assert_eq!(runner.scheduler().processes()[0].name(), "a");
    assert_eq!(runner.scheduler().processes()[1].name(), "b");
}

#[test]
fn a_turn_behind_the_queue_runs_nothing() {
    let mut scheduler =
        RoundRobinScheduler::with_processes(vec![process(0, "a"), process(1, "b")], u64::MAX);
    scheduler.poll_process();
    assert!(scheduler.remove_process("b".to_string()).is_some());
    let mut runner = ProcessRunner::new(scheduler);
    // the current place lies behind the one process that is left
    assert_eq!(runner.run_process(&vec![0]), "");
    assert_eq!(runner.advance(&vec![0]), "");
    assert_eq!(runner.scheduler().cpu_elapsed(), 0);
    assert_eq!(runner.scheduler().processes()[0].cpu_usage(), 0);
}
