use light_rpc::signature::TxSignature;
use light_rpc::worker::{LightWorker, RETRY_BATCH_SIZE, RETRY_INTERVAL_MS};

fn sig(n: u8) -> TxSignature {
    let mut bytes = [0u8; 64];
    bytes[0] = n;
    bytes[63] = 7;
    TxSignature { bytes }
}

fn wire(n: u8) -> Vec<u8> {
    vec![n, n, 1]
}

#[test]
fn new_worker_has_no_work() {
    let w = LightWorker::new();
    assert!(w.has_no_work());
    assert_eq!(w.len(), 0);
}

#[test]
fn enqueue_adds_unconfirmed_transaction() {
    let mut w = LightWorker::new();
    w.enqnueue_tx(sig(1), wire(1), 5, false);
    assert!(!w.has_no_work());
    assert_eq!(w.len(), 1);
    assert_eq!(w.retries_of(&sig(1)), Some(5));
    assert_eq!(w.retries_of(&sig(2)), None);
}

#[test]
fn enqueue_skips_confirmed_transaction() {
    let mut w = LightWorker::new();
    w.enqnueue_tx(sig(1), wire(1), 5, true);
    assert!(w.has_no_work());
    assert_eq!(w.retries_of(&sig(1)), None);
}

#[test]
fn enqueue_again_keeps_waiting_entry() {
    let mut w = LightWorker::new();
    w.enqnueue_tx(sig(1), wire(1), 5, false);
    w.enqnueue_tx(sig(2), wire(2), 1, false);
    w.enqnueue_tx(sig(1), wire(9), 3, false);
    assert_eq!(w.len(), 2);
    assert_eq!(w.retries_of(&sig(1)), Some(5));
    let batches = w.retry_txs(&vec![]);
    assert_eq!(batches, vec![vec![wire(1), wire(2)]]);
}

#[test]
fn enqueue_after_retries_keeps_counting_down() {
    let mut w = LightWorker::new();
    w.enqnueue_tx(sig(1), wire(1), 2, false);
    w.retry_txs(&vec![]);
    w.enqnueue_tx(sig(1), wire(1), 7, false);
    assert_eq!(w.retries_of(&sig(1)), Some(1));
}

#[test]
fn confirmed_transactions_leave_without_being_sent() {
    let mut w = LightWorker::new();
    w.enqnueue_tx(sig(1), wire(1), 3, false);
    w.enqnueue_tx(sig(2), wire(2), 3, false);
    w.enqnueue_tx(sig(3), wire(3), 0, false);
    let batches = w.retry_txs(&vec![sig(2), sig(9)]);
    assert_eq!(batches, vec![vec![wire(1), wire(3)]]);
    assert_eq!(w.len(), 1);
    assert_eq!(w.retries_of(&sig(1)), Some(2));
    assert_eq!(w.retries_of(&sig(2)), None);
    assert_eq!(w.retries_of(&sig(3)), None);
}

#[test]
fn all_confirmed_round_sends_nothing() {
    let mut w = LightWorker::new();
    w.enqnueue_tx(sig(1), wire(1), 3, false);
    let batches = w.retry_txs(&vec![sig(1)]);
    assert!(batches.is_empty());
    assert!(w.has_no_work());
}

#[test]
fn queued_signatures_in_queue_order() {
    let mut w = LightWorker::new();
    w.enqnueue_tx(sig(5), wire(5), 1, false);
    w.enqnueue_tx(sig(3), wire(3), 1, false);
    let sigs = w.queued_signatures();
    assert_eq!(sigs.len(), 2);
    assert!(sigs[0].same_as(&sig(5)));
    assert!(sigs[1].same_as(&sig(3)));
}

#[test]
fn retry_on_empty_queue_sends_nothing() {
    let mut w = LightWorker::new();
    let batches = w.retry_txs(&vec![]);
    assert!(batches.is_empty());
    assert!(w.has_no_work());
}

#[test]
fn retry_counts_down_and_drops_exhausted() {
    let mut w = LightWorker::new();
    w.enqnueue_tx(sig(1), wire(1), 2, false);
    w.enqnueue_tx(sig(2), wire(2), 0, false);

    let first = w.retry_txs(&vec![]);
    assert_eq!(first, vec![vec![wire(1), wire(2)]]);
    assert_eq!(w.retries_of(&sig(1)), Some(1));
    assert_eq!(w.retries_of(&sig(2)), None);

    let second = w.retry_txs(&vec![]);
    assert_eq!(second, vec![vec![wire(1)]]);
    assert_eq!(w.retries_of(&sig(1)), Some(0));

    let third = w.retry_txs(&vec![]);
    assert_eq!(third, vec![vec![wire(1)]]);
    assert!(w.has_no_work());

    let fourth = w.retry_txs(&vec![]);
    assert!(fourth.is_empty());
}

#[test]
fn transaction_with_r_retries_is_sent_r_plus_one_rounds() {
    let mut w = LightWorker::new();
    w.enqnueue_tx(sig(4), wire(4), 3, false);
    let mut rounds = 0;
    while !w.has_no_work() {
        let batches = w.retry_txs(&vec![]);
        assert_eq!(batches, vec![vec![wire(4)]]);
        rounds += 1;
    }
    assert_eq!(rounds, 4);
}

#[test]
fn retry_cuts_batches_of_ten() {
    let mut w = LightWorker::new();
    for n in 0..23u8 {
        w.enqnueue_tx(sig(n), wire(n), 1, false);
    }
    let batches = w.retry_txs(&vec![]);
    assert_eq!(RETRY_BATCH_SIZE, 10);
    assert_eq!(batches.len(), 3);
    assert_eq!(batches[0].len(), 10);
    assert_eq!(batches[1].len(), 10);
    assert_eq!(batches[2].len(), 3);
    let flat: Vec<Vec<u8>> = batches.into_iter().flatten().collect();
    let expected: Vec<Vec<u8>> = (0..23u8).map(wire).collect();
    assert_eq!(flat, expected);
    assert_eq!(w.len(), 23);
    for n in 0..23u8 {
        assert_eq!(w.retries_of(&sig(n)), Some(0));
    }
}

#[test]
fn retry_of_exactly_ten_makes_one_batch() {
    let mut w = LightWorker::new();
    for n in 0..10u8 {
        w.enqnueue_tx(sig(n), wire(n), 0, false);
    }
    let batches = w.retry_txs(&vec![]);
    assert_eq!(batches.len(), 1);
    assert_eq!(batches[0].len(), 10);
    assert!(w.has_no_work());
}

#[test]
fn signature_equality_compares_bytes() {
    assert!(sig(1).same_as(&sig(1)));
    assert!(!sig(1).same_as(&sig(2)));
}

#[test]
fn retry_interval_is_800_ms() {
    assert_eq!(RETRY_INTERVAL_MS, 800);
}
