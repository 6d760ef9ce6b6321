use chip8::error::ChipError;
use chip8::timing::{Instruction, TimedSystem, Timing};

const SECOND: u64 = 1_000_000_000;

fn total(batches: &[Instruction], name: &str) -> u64 {
    batches.iter().filter(|b| b.name == name).map(|b| b.cycles).sum()
}

fn roster() -> Vec<TimedSystem> {
    vec![TimedSystem::new("cpu", 700), TimedSystem::new("timer", 60)]
}

#[test]
fn rate_accuracy_one_call() {
    let t0 = 5_000;
    let mut timing = Timing::new(t0, roster());
    let batches = timing.get_instructions(t0 + SECOND).unwrap();
    assert_eq!(total(&batches, "cpu"), 700);
    assert_eq!(total(&batches, "timer"), 60);
}

#[test]
fn rate_accuracy_many_calls() {
    let t0 = 0;
    let mut timing = Timing::new(t0, roster());
    let mut cpu = 0;
    let mut timer = 0;
    for step in 1..=37u64 {
        let now = t0 + SECOND * step / 37;
        let batches = timing.get_instructions(now).unwrap();
        cpu += total(&batches, "cpu");
        timer += total(&batches, "timer");
    }
    assert_eq!(cpu, 700);
    assert_eq!(timer, 60);
}

#[test]
fn second_call_with_same_time_is_empty() {
    let mut timing = Timing::new(100, roster());
    let first = timing.get_instructions(100 + SECOND / 3).unwrap();
    assert!(!first.is_empty());
    assert!(timing.get_instructions(100 + SECOND / 3).unwrap().is_empty());
    assert!(timing.get_instructions(100 + SECOND / 4).unwrap().is_empty());
    assert!(timing.get_instructions(50).unwrap().is_empty());
}

#[test]
fn batches_interleave_in_due_order() {
    let mut timing = Timing::new(0, roster());
    let batches = timing.get_instructions(40_000_000).unwrap();
    // cpu cycles every 1_428_571 ns, timer every 16_666_666 ns.
    let got: Vec<(&str, u64)> = batches.iter().map(|b| (b.name, b.cycles)).collect();
    assert_eq!(got, vec![("cpu", 11), ("timer", 1), ("cpu", 12), ("timer", 1), ("cpu", 5)]);
}

#[test]
fn equal_due_times_keep_roster_order() {
    let mut timing = Timing::new(0, vec![TimedSystem::new("a", 10), TimedSystem::new("b", 10)]);
    let batches = timing.get_instructions(250_000_000).unwrap();
    let got: Vec<(&str, u64)> = batches.iter().map(|b| (b.name, b.cycles)).collect();
    assert_eq!(got, vec![("a", 1), ("b", 1), ("a", 1), ("b", 1)]);
}

#[test]
fn single_system_takes_whole_backlog() {
    let mut timing = Timing::new(0, vec![TimedSystem::new("cpu", 1000)]);
    let batches = timing.get_instructions(10_500_000).unwrap();
    assert_eq!(batches.len(), 1);
    assert_eq!(batches[0].name, "cpu");
    assert_eq!(batches[0].cycles, 10);
}

#[test]
fn cycle_due_exactly_now_waits() {
    let mut timing = Timing::new(0, vec![TimedSystem::new("cpu", 1000)]);
    assert!(timing.get_instructions(1_000_000).unwrap().is_empty());
    let batches = timing.get_instructions(1_000_001).unwrap();
    assert_eq!(batches[0].cycles, 1);
}

#[test]
fn empty_roster_gives_nothing() {
    let mut timing = Timing::new(0, vec![]);
    assert!(timing.get_instructions(SECOND).unwrap().is_empty());
}

#[test]
fn zero_length_cycle_stalls() {
    let mut timing = Timing::new(0, vec![TimedSystem::new("fast", 2 * SECOND)]);
    assert!(timing.get_instructions(0).unwrap().is_empty());
    match timing.get_instructions(10) {
        Err(e) => assert_eq!(e, ChipError::SchedulerStalled),
        Ok(_) => panic!("expected a stall"),
    }
}
