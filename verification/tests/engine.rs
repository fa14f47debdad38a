use std::str::FromStr;

use port_sniffer::engine::{
    finalize, make_workers, run_scan, run_scan_cancelled_after, ProbeOutcome, ScanError,
    ScanState, Worker, WorkerStep,
};
use port_sniffer::models::PortRange;
use port_sniffer::portset::{build_port_set, ports_to_scan};
use port_sniffer::sorting::sort_ports;

#[test]
fn dedup_port_set() {
    let ranges = vec![
        PortRange::from_str("80").unwrap(),
        PortRange::from_str("80").unwrap(),
        PortRange::from_str("443-445").unwrap(),
        PortRange::from_str("444").unwrap(),
    ];
    let set = build_port_set(&ranges);
    assert_eq!(sort_ports(&set), vec![80, 443, 444, 445]);
    assert_eq!(set.len(), 4);
}

#[test]
fn full_range_when_unrestricted() {
    let set = ports_to_scan(None);
    assert_eq!(set.len(), 65536);
    assert_eq!(set[0], 0);
    assert_eq!(set[65535], 65535);
}

#[test]
fn restricted_port_set() {
    let ranges = vec![PortRange::from_str("8078-8082").unwrap()];
    let set = ports_to_scan(Some(&ranges));
    assert_eq!(sort_ports(&set), vec![8078, 8079, 8080, 8081, 8082]);
}

#[test]
fn end_to_end_scenario() {
    // Loopback fixture with listeners bound on ports 22 and 8080 only.
    let ports = vec![20, 21, 22, 8080, 8081];
    let reachable = vec![false, false, true, true, false];
    let outcome = run_scan(&ports, 2, &reachable).unwrap();
    assert_eq!(outcome.open_ports, vec![22, 8080]);
    assert_eq!(outcome.scanned, 5);
    assert_eq!(outcome.open, 2);
    assert_eq!(outcome.closed, 3);
}

#[test]
fn same_set_for_every_worker_count() {
    let ports = vec![7, 3, 9, 1, 5, 11, 2];
    let reachable = vec![true, false, true, false, true, false, true];
    let expected = run_scan(&ports, 1, &reachable).unwrap().open_ports;
    for n in 2..9 {
        let outcome = run_scan(&ports, n, &reachable).unwrap();
        assert_eq!(outcome.open_ports, expected);
    }
}

#[test]
fn zero_workers_refused() {
    let ports = vec![80];
    let reachable = vec![true];
    assert!(matches!(
        run_scan(&ports, 0, &reachable),
        Err(ScanError::InvalidConfiguration)
    ));
    assert!(matches!(make_workers(0), Err(ScanError::InvalidConfiguration)));
}

#[test]
fn cancellation_partial_report() {
    let ports = vec![10, 20, 30, 40, 50, 60];
    let reachable = vec![true, true, true, true, true, true];
    let outcome = run_scan_cancelled_after(&ports, 2, &reachable, 3).unwrap();
    assert_eq!(outcome.scanned, 3);
    assert_eq!(outcome.open + outcome.closed, outcome.scanned);
    assert!(outcome.open_ports.len() <= 3);
    for p in &outcome.open_ports {
        assert!(ports.contains(p));
    }
    // A budget beyond the set cancels nothing: the scan completes.
    let complete = run_scan_cancelled_after(&ports, 2, &reachable, 100).unwrap();
    assert_eq!(complete.scanned, 6);
    assert_eq!(complete.open, 6);
}

#[test]
fn worker_observes_cancellation_first() {
    let w = Worker { index: 0, stride: 2 };
    assert_eq!(w.next_step(true, 10), WorkerStep::Cancelled);
    assert_eq!(w.next_step(false, 10), WorkerStep::Probe(0));
    let done = Worker { index: 10, stride: 2 };
    assert_eq!(done.next_step(false, 10), WorkerStep::Exhausted);
    assert_eq!(done.next_step(true, 10), WorkerStep::Cancelled);
}

#[test]
fn cancellation_between_workers() {
    let ports = vec![1, 2, 3, 4];
    let reachable = [true, true, false, false];
    let mut state = ScanState::new();
    let workers = make_workers(2).unwrap();

    // Worker 0 works its stripe (indices 0 and 2) to exhaustion.
    let mut w0 = workers[0];
    loop {
        match w0.next_step(state.is_cancelled(), ports.len()) {
            WorkerStep::Probe(i) => {
                let outcome = if reachable[i] {
                    ProbeOutcome::Open
                } else {
                    ProbeOutcome::ClosedOrUnreachable
                };
                state.record(ports[i], outcome);
                w0.advance();
            }
            _ => break,
        }
    }
    assert_eq!(state.scanned, 2);

    // The interrupt arrives before worker 1 starts; raising the flag
    // twice changes nothing.
    state.cancel();
    state.cancel();
    let w1 = workers[1];
    assert!(matches!(
        w1.next_step(state.is_cancelled(), ports.len()),
        WorkerStep::Cancelled
    ));

    // The partial report holds only what worker 0 had published.
    let report = finalize(&state);
    assert_eq!(report.scanned, 2);
    assert_eq!(report.open, 1);
    assert_eq!(report.closed, 1);
    assert_eq!(report.open_ports, vec![1]);
}

#[test]
fn sort_ports_orders_and_keeps() {
    let v = vec![5, 3, 3, 1, 65535, 0];
    assert_eq!(sort_ports(&v), vec![0, 1, 3, 3, 5, 65535]);
    let empty: Vec<u32> = vec![];
    assert_eq!(sort_ports(&empty), empty);
}

#[test]
fn no_open_ports_reported_when_none_reachable() {
    let ports = vec![1, 2, 3];
    let reachable = vec![false, false, false];
    let outcome = run_scan(&ports, 3, &reachable).unwrap();
    assert!(outcome.open_ports.is_empty());
    assert_eq!(outcome.scanned, 3);
    assert_eq!(outcome.open, 0);
    assert_eq!(outcome.closed, 3);
}

#[test]
fn more_workers_than_ports() {
    let ports = vec![80, 443];
    let reachable = vec![true, true];
    let outcome = run_scan(&ports, 5, &reachable).unwrap();
    assert_eq!(outcome.open_ports, vec![80, 443]);
    assert_eq!(outcome.scanned, 2);
}
