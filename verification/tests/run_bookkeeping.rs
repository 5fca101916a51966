use probe_runner::orchestrator::{plan, Completion, ItemState, Orchestrator, Step};
use probe_runner::orchestrator::MAX_CONCURRENT_TASKS;
use probe_runner::probe::ProbeError;
use probe_runner::sink::SinkError;

fn strings(items: &[&str]) -> Vec<String> {
    items.iter().map(|s| s.to_string()).collect()
}

fn states(run: &Orchestrator) -> Vec<ItemState> {
    let mut out: Vec<ItemState> = Vec::new();
    let mut i: usize = 0;
    while i < run.len() {
        out.push(run.state(i).unwrap());
        i += 1;
    }
    out
}

fn count_running(run: &Orchestrator) -> usize {
    states(run).iter().filter(|s| **s == ItemState::Running).count()
}

#[test]
fn the_default_limit_is_ten() {
    assert_eq!(MAX_CONCURRENT_TASKS, 10);
}

#[test]
fn a_new_run_has_every_item_waiting() {
    let run = Orchestrator::new(4, 2);
    assert_eq!(run.len(), 4);
    assert_eq!(run.limit(), 2);
    assert_eq!(run.running(), 0);
    assert_eq!(states(&run), vec![ItemState::Pending; 4]);
    assert_eq!(run.state(4), None);
    assert!(!run.is_complete());
}

#[test]
fn a_run_without_items_is_over_at_once() {
    let mut run = Orchestrator::new(0, 10);
    assert!(run.is_complete());
    assert_eq!(run.start_next(), None);
}

#[test]
fn items_are_started_in_order_up_to_the_limit() {
    let mut run = Orchestrator::new(5, 3);
    assert_eq!(run.start_next(), Some(0));
    assert_eq!(run.start_next(), Some(1));
    assert_eq!(run.start_next(), Some(2));
    assert_eq!(run.start_next(), None);
    assert_eq!(run.running(), 3);
    assert_eq!(
        states(&run),
        vec![
            ItemState::Running,
            ItemState::Running,
            ItemState::Running,
            ItemState::Pending,
            ItemState::Pending
        ]
    );
}

#[test]
fn a_finished_item_frees_its_slot() {
    let mut run = Orchestrator::new(3, 1);
    assert_eq!(run.start_next(), Some(0));
    assert_eq!(run.start_next(), None);
    assert!(run.complete(0, Completion::Recorded));
    assert_eq!(run.running(), 0);
    assert_eq!(run.start_next(), Some(1));
    assert!(run.complete(1, Completion::ProbeFailed));
    assert_eq!(run.start_next(), Some(2));
    assert_eq!(run.start_next(), None);
    assert!(!run.is_complete());
    assert!(run.complete(2, Completion::Empty));
    assert!(run.is_complete());
    assert_eq!(
        states(&run),
        vec![ItemState::Recorded, ItemState::Dropped, ItemState::Dropped]
    );
}

#[test]
fn every_way_of_ending_is_terminal() {
    let mut run = Orchestrator::new(4, 4);
    let mut i: usize = 0;
    while i < 4 {
        assert_eq!(run.start_next(), Some(i));
        i += 1;
    }
    assert!(run.complete(3, Completion::WriteFailed));
    assert!(run.complete(1, Completion::Empty));
    assert!(run.complete(0, Completion::Recorded));
    assert!(run.complete(2, Completion::ProbeFailed));
    assert_eq!(
        states(&run),
        vec![ItemState::Recorded, ItemState::Dropped, ItemState::Dropped, ItemState::Dropped]
    );
    assert_eq!(Completion::Recorded.state(), ItemState::Recorded);
    assert_eq!(Completion::Empty.state(), ItemState::Dropped);
    assert_eq!(Completion::ProbeFailed.state(), ItemState::Dropped);
    assert_eq!(Completion::WriteFailed.state(), ItemState::Dropped);
    assert!(run.is_complete());
}

#[test]
fn a_report_on_an_item_that_is_not_under_way_is_turned_down() {
    let mut run = Orchestrator::new(3, 2);
    assert!(!run.complete(0, Completion::Recorded));
    assert_eq!(run.start_next(), Some(0));
    assert!(!run.complete(1, Completion::Recorded));
    assert!(!run.complete(3, Completion::Recorded));
    assert!(!run.complete(usize::MAX, Completion::Recorded));
    assert!(run.complete(0, Completion::Empty));
    assert!(!run.complete(0, Completion::Recorded));
    assert_eq!(states(&run), vec![ItemState::Dropped, ItemState::Pending, ItemState::Pending]);
    assert_eq!(run.running(), 0);
}

#[test]
fn without_slots_nothing_starts() {
    let mut run = Orchestrator::new(2, 0);
    assert_eq!(run.start_next(), None);
    assert_eq!(run.running(), 0);
    assert!(!run.is_complete());
}

#[test]
fn never_more_under_way_than_the_limit() {
    let limits: [usize; 4] = [1, 3, 10, 64];
    for limit in limits {
        let count: usize = 137;
        let mut run = Orchestrator::new(count, limit);
        let mut under_way: Vec<usize> = Vec::new();
        let mut seed: u64 = 0x9e3779b97f4a7c15;
        let mut finished: usize = 0;
        while !run.is_complete() {
            seed = seed.wrapping_mul(6364136223846793005).wrapping_add(1442695040888963407);
            let start = (seed >> 33) % 3 != 0;
            if start {
                if let Some(i) = run.start_next() {
                    under_way.push(i);
                } else {
                    assert!(under_way.len() == limit || under_way.len() + finished == count);
                }
            } else if !under_way.is_empty() {
                let pick = ((seed >> 20) as usize) % under_way.len();
                let i = under_way.swap_remove(pick);
                let completion = match (seed >> 40) % 4 {
                    0 => Completion::Recorded,
                    1 => Completion::Empty,
                    2 => Completion::ProbeFailed,
                    _ => Completion::WriteFailed,
                };
                assert!(run.complete(i, completion));
                finished += 1;
            }
            assert!(run.running() <= limit);
            assert_eq!(run.running(), under_way.len());
            assert_eq!(count_running(&run), under_way.len());
        }
        assert_eq!(finished, count);
        assert_eq!(run.start_next(), None);
    }
}

#[test]
fn with_ten_slots_the_eleventh_item_waits() {
    let mut run = Orchestrator::new(25, MAX_CONCURRENT_TASKS);
    let mut started: usize = 0;
    while let Some(i) = run.start_next() {
        assert_eq!(i, started);
        started += 1;
    }
    assert_eq!(started, 10);
    assert_eq!(run.state(10), Some(ItemState::Pending));
    assert!(run.complete(4, Completion::Empty));
    assert_eq!(run.start_next(), Some(10));
    assert_eq!(run.start_next(), None);
}

#[test]
fn findings_become_rows_to_append() {
    let step = plan("10.0.0.1", &Ok(strings(&[": backdoor admin panel", "telnet, open"])));
    match step {
        Step::Append(bytes) => assert_eq!(
            bytes,
            b"10.0.0.1,: backdoor admin panel\n10.0.0.1,\"telnet, open\"\n".to_vec()
        ),
        other => panic!("unexpected step {:?}", other),
    }
}

#[test]
fn as_many_rows_as_findings() {
    let mut found: Vec<String> = Vec::new();
    let mut m: usize = 1;
    while m <= 20 {
        found.push(format!("finding {}", m));
        match plan("192.168.1.1", &Ok(found.clone())) {
            Step::Append(bytes) => {
                let text = String::from_utf8(bytes).unwrap();
                let rows: Vec<&str> = text.lines().collect();
                assert_eq!(rows.len(), m);
                for row in rows {
                    assert!(row.starts_with("192.168.1.1,"));
                }
            }
            other => panic!("unexpected step {:?}", other),
        }
        m += 1;
    }
}

#[test]
fn no_findings_give_no_row() {
    assert!(matches!(plan("10.0.0.2", &Ok(Vec::new())), Step::Skip));
}

#[test]
fn a_failed_probe_is_reported() {
    assert!(matches!(plan("10.0.0.2", &Err(ProbeError::Launch)), Step::Report(ProbeError::Launch)));
    assert!(matches!(plan("10.0.0.2", &Err(ProbeError::NotText)), Step::Report(ProbeError::NotText)));
}

#[test]
fn sink_errors_can_be_told_apart_from_probe_errors() {
    let refusal = Step::Refuse(SinkError::Encoding);
    assert!(matches!(refusal, Step::Refuse(SinkError::Encoding)));
    assert!(!matches!(refusal, Step::Report(_)));
}
