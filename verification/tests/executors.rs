use assignment_1_solution::{ModuleTable, TickScheduler, TickStep, WorkerMsg, WorkerStep};

const MS: u128 = 1_000_000;

#[test]
fn worker_registers_runs_and_stops() {
    let mut table: ModuleTable<&str> = ModuleTable::new();
    assert!(matches!(table.handle::<u8>(WorkerMsg::NewModule((0, "a"))), WorkerStep::Continue));
    assert!(matches!(table.handle::<u8>(WorkerMsg::NewModule((1, "b"))), WorkerStep::Continue));
    assert_eq!(table.len(), 2);
    assert!(matches!(table.handle(WorkerMsg::ExecuteMsg(7u8)), WorkerStep::Execute(7)));
    assert!(matches!(table.handle::<u8>(WorkerMsg::RemModule(0)), WorkerStep::Continue));
    assert_eq!(table.len(), 1);
    assert!(matches!(table.handle::<u8>(WorkerMsg::RemModule(5)), WorkerStep::Continue));
    assert_eq!(table.len(), 1);
    assert!(matches!(table.handle::<u8>(WorkerMsg::EndingMsg), WorkerStep::Stop));
}

#[test]
fn ticks_fire_every_period() {
    let mut s = TickScheduler::new();
    let start = 1_000 * MS;
    let (action, notify) = s.request_tick(start, 500 * MS).unwrap();
    assert_eq!(action, 0);
    assert!(notify);
    assert_eq!(s.next_step(start, false), TickStep::WaitFor(500 * MS));
    assert_eq!(s.next_step(start + 500 * MS, false), TickStep::Fire);
    assert_eq!(s.fire(), Some(0));
    let first = start + 500 * MS;
    match s.next_step(first, false) {
        TickStep::WaitFor(wait) => {
            let millis = wait / MS;
            assert!(millis >= 400 && millis <= 600);
        }
        other => panic!("unexpected {:?}", other),
    }
}

#[test]
fn earliest_tick_fires_first() {
    let mut s = TickScheduler::new();
    assert_eq!(s.request_tick(0, 100), Some((0, true)));
    assert_eq!(s.request_tick(0, 50), Some((1, true)));
    assert_eq!(s.request_tick(0, 70), Some((2, false)));
    assert_eq!(s.next_step(60, false), TickStep::Fire);
    assert_eq!(s.fire(), Some(1));
    assert_eq!(s.next_step(60, false), TickStep::WaitFor(10));
    assert_eq!(s.fire(), Some(2));
    assert_eq!(s.fire(), Some(0));
    assert_eq!(s.fire(), Some(1));
}

#[test]
fn scheduler_waits_when_empty_and_stops_when_dropped() {
    let mut s = TickScheduler::new();
    assert_eq!(s.next_step(0, false), TickStep::Wait);
    assert_eq!(s.fire(), None);
    s.request_tick(0, 10).unwrap();
    assert_eq!(s.next_step(0, true), TickStep::Stop);
}

#[test]
fn scheduler_refuses_times_that_do_not_fit() {
    let mut s = TickScheduler::new();
    assert_eq!(s.request_tick(u128::MAX, 1), None);
    assert_eq!(s.request_tick(u128::MAX - 5, 5), Some((0, true)));
    assert_eq!(s.fire(), None);
}
