use stock_snapshot::csvfmt::encode_snapshot;
use stock_snapshot::cycle::{CycleState, FetchError};
use stock_snapshot::poll::{PollAction, PollLoop};
use stock_snapshot::quote::CSVQuote;

fn symbols(names: &[&str]) -> Vec<Vec<u8>> {
    names.iter().map(|s| s.as_bytes().to_vec()).collect()
}

fn quote_for(name: &[u8], timestamp: u64) -> CSVQuote {
    CSVQuote::new(
        name.to_vec(),
        timestamp,
        b"10.0".to_vec(),
        b"11.0".to_vec(),
        b"11.0".to_vec(),
        b"12.0".to_vec(),
        b"9.0".to_vec(),
        500,
    )
}

#[test]
fn one_failure_leaves_other_records() {
    // Two configured symbols; the first succeeds, the second fails.
    let mut cycle = CycleState::begin(symbols(&["AAA", "BBB"]));

    let first = cycle.next_symbol().expect("first symbol pending").clone();
    assert_eq!(first, b"AAA".to_vec());
    cycle.record_success(CSVQuote::new(
        first,
        1000,
        b"10.0".to_vec(),
        b"11.0".to_vec(),
        b"11.0".to_vec(),
        b"12.0".to_vec(),
        b"9.0".to_vec(),
        500,
    ));

    let second = cycle.next_symbol().expect("second symbol pending").clone();
    assert_eq!(second, b"BBB".to_vec());
    let err = FetchError::ProviderUnavailable { cause: "connection refused".to_string() };
    assert!(matches!(err, FetchError::ProviderUnavailable { .. }));
    cycle.record_failure(&err);

    assert!(cycle.done());
    let batch = cycle.finish();
    assert_eq!(batch.len(), 1);
    assert_eq!(batch[0].name, b"AAA".to_vec());

    let out = encode_snapshot(&batch);
    let mut expected = b"name,timestamp,open,close,adjclose,high,low,volume\n".to_vec();
    expected.extend_from_slice(b"AAA,1000,10.0,11.0,11.0,12.0,9.0,500\n");
    assert_eq!(out, expected);
}

#[test]
fn batch_keeps_configured_order_with_gaps() {
    let mut cycle = CycleState::begin(symbols(&["AAA", "BBB", "CCC"]));
    let s = cycle.next_symbol().unwrap().clone();
    cycle.record_success(quote_for(&s, 1));
    cycle.next_symbol().unwrap();
    cycle.record_failure(&FetchError::NoData);
    let s = cycle.next_symbol().unwrap().clone();
    cycle.record_success(quote_for(&s, 3));
    assert!(cycle.done());
    assert!(cycle.next_symbol().is_none());
    let batch = cycle.finish();
    // Batch no longer than the symbol list, order preserved, failure absent.
    assert_eq!(batch.len(), 2);
    assert_eq!(batch[0].name, b"AAA".to_vec());
    assert_eq!(batch[1].name, b"CCC".to_vec());
}

#[test]
fn zero_symbols_still_write_a_snapshot() {
    let cycle = CycleState::begin(Vec::new());
    assert!(cycle.done());
    let batch = cycle.finish();
    assert!(batch.is_empty());
    let out = encode_snapshot(&batch);
    assert_eq!(out, b"name,timestamp,open,close,adjclose,high,low,volume\n".to_vec());
}

#[test]
fn zero_delay_runs_exactly_one_cycle() {
    // Delay zero: one full cycle, one fetch attempt per symbol, then stop,
    // whatever the per-symbol outcomes were.
    let mut looper = PollLoop::start(0);
    let mut cycle = CycleState::begin(symbols(&["AAA", "BBB"]));
    let mut attempts = 0;
    while let Some(sym) = cycle.next_symbol() {
        let sym = sym.clone();
        attempts += 1;
        if attempts == 1 {
            cycle.record_success(quote_for(&sym, 1000));
        } else {
            cycle.record_failure(&FetchError::NoData);
        }
    }
    assert_eq!(attempts, 2);
    let batch = cycle.finish();
    let _snapshot = encode_snapshot(&batch);
    let action = looper.after_cycle();
    assert_eq!(action, PollAction::Stop);
}

#[test]
fn positive_delay_sleeps_between_cycles() {
    let mut looper = PollLoop::start(5);
    let action = looper.after_cycle();
    assert_eq!(action, PollAction::Sleep { seconds: 5 });
    // The loop still runs, so a second cycle follows the sleep.
    let action = looper.after_cycle();
    assert_eq!(action, PollAction::Sleep { seconds: 5 });
}

#[test]
fn second_cycle_replaces_first_snapshot() {
    // Delay five: two consecutive cycles; the file holds only the later one.
    let mut looper = PollLoop::start(5);
    let mut file: Vec<u8> = Vec::new();

    let mut cycle = CycleState::begin(symbols(&["AAA"]));
    let s = cycle.next_symbol().unwrap().clone();
    cycle.record_success(quote_for(&s, 1000));
    let first = encode_snapshot(&cycle.finish());
    file = first.clone();
    assert_eq!(file, first);
    assert_eq!(looper.after_cycle(), PollAction::Sleep { seconds: 5 });

    let mut cycle = CycleState::begin(symbols(&["AAA"]));
    let s = cycle.next_symbol().unwrap().clone();
    cycle.record_success(quote_for(&s, 2000));
    let second = encode_snapshot(&cycle.finish());
    file = second.clone();
    assert_eq!(looper.after_cycle(), PollAction::Sleep { seconds: 5 });

    // The snapshot was rebuilt from scratch: cycle two's row alone.
    let mut expected = b"name,timestamp,open,close,adjclose,high,low,volume\n".to_vec();
    expected.extend_from_slice(b"AAA,2000,10.0,11.0,11.0,12.0,9.0,500\n");
    assert_eq!(file, expected);
    assert_ne!(file, first);
    let text = String::from_utf8(file).unwrap();
    assert!(!text.contains("1000"));
}
