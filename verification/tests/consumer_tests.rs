use ah4c_stream::consumer::{
    stale_ms, Consumer, ConsumerAction, ConsumerEvent, STALE_DATA_MS, STALL_READ_GAP_MS,
};
use ah4c_stream::packet::make_null;
use ah4c_stream::summary::{Counters, Report, Summary};

fn receive() -> ConsumerAction {
    ConsumerAction::Receive { timeout_ms: 500 }
}

fn receiving() -> Consumer {
    let (mut c, _) = Consumer::start();
    assert_eq!(c.step(ConsumerEvent::PipeGranted), receive());
    c
}

#[test]
fn thresholds() {
    assert_eq!(STALL_READ_GAP_MS, 500);
    assert_eq!(STALE_DATA_MS, 1_500);
}

#[test]
fn pipe_is_asked_for_in_falling_sizes() {
    let mib: u32 = 1024 * 1024;
    let (mut c, a) = Consumer::start();
    assert_eq!(a, ConsumerAction::ResizePipe { bytes: 8 * mib });
    assert_eq!(c.step(ConsumerEvent::PipeDenied), ConsumerAction::ResizePipe { bytes: 4 * mib });
    assert_eq!(c.step(ConsumerEvent::PipeDenied), ConsumerAction::ResizePipe { bytes: 2 * mib });
    assert_eq!(c.step(ConsumerEvent::PipeDenied), ConsumerAction::ResizePipe { bytes: mib });
    assert_eq!(c.step(ConsumerEvent::PipeDenied), receive());
}

#[test]
fn granted_pipe_ends_the_asking() {
    let (mut c, _) = Consumer::start();
    c.step(ConsumerEvent::PipeDenied);
    assert_eq!(c.step(ConsumerEvent::PipeGranted), receive());
}

#[test]
fn chunks_are_forwarded_and_counted() {
    let mut c = receiving();
    let a = c.step(ConsumerEvent::Data(vec![1, 2, 3]));
    assert_eq!(a, ConsumerAction::Write(vec![1, 2, 3]));
    assert_eq!(c.bytes_written(), 0);
    assert_eq!(c.step(ConsumerEvent::Written), receive());
    assert_eq!(c.bytes_written(), 3);
}

#[test]
fn silence_is_padded_with_one_null_packet() {
    let mut c = receiving();
    let fresh = ConsumerEvent::Timeout { now_us: 2_500_999, last_data_us: 1_000_000 };
    assert_eq!(c.step(fresh), receive());
    let stale = ConsumerEvent::Timeout { now_us: 2_501_000, last_data_us: 1_000_000 };
    assert_eq!(c.step(stale), ConsumerAction::Write(make_null()));
    assert_eq!(c.step(ConsumerEvent::Written), receive());
    assert_eq!(c.bytes_written(), 0);
}

#[test]
fn padding_stands_between_whole_chunks() {
    let mut c = receiving();
    let mut written: Vec<Vec<u8>> = Vec::new();
    let stale = || ConsumerEvent::Timeout { now_us: 9_000_000, last_data_us: 0 };
    for event in [ConsumerEvent::Data(vec![1, 2]), stale(), stale(), ConsumerEvent::Data(vec![3])] {
        if let ConsumerAction::Write(bytes) = c.step(event) {
            written.push(bytes);
            assert_eq!(c.step(ConsumerEvent::Written), receive());
        }
    }
    assert_eq!(written, vec![vec![1, 2], make_null(), make_null(), vec![3]]);
    assert_eq!(c.bytes_written(), 3);
}

#[test]
fn stale_gap() {
    assert_eq!(stale_ms(1_500_999, 0), None);
    assert_eq!(stale_ms(1_501_000, 0), Some(1_501));
    assert_eq!(stale_ms(0, 9_000_000), None);
    assert_eq!(stale_ms(9_999_999, 1_000_000), Some(8_999));
}

#[test]
fn closed_queue_or_output_ends_it() {
    assert_eq!(receiving().step(ConsumerEvent::Disconnected), ConsumerAction::Stop);
    let mut c = receiving();
    c.step(ConsumerEvent::Data(vec![1]));
    assert_eq!(c.step(ConsumerEvent::WriteFailed), ConsumerAction::Stop);
    assert_eq!(c.bytes_written(), 0);
    let mut c = receiving();
    c.step(ConsumerEvent::Timeout { now_us: 9_000_000, last_data_us: 0 });
    assert_eq!(c.step(ConsumerEvent::WriteFailed), ConsumerAction::Stop);
}

#[test]
fn consumer_awaits_answers_only() {
    let (c, _) = Consumer::start();
    assert!(c.awaits(&ConsumerEvent::PipeGranted));
    assert!(c.awaits(&ConsumerEvent::PipeDenied));
    assert!(!c.awaits(&ConsumerEvent::Written));
    let c = receiving();
    assert!(c.awaits(&ConsumerEvent::Data(Vec::new())));
    assert!(c.awaits(&ConsumerEvent::Timeout { now_us: 0, last_data_us: 0 }));
    assert!(c.awaits(&ConsumerEvent::Disconnected));
    assert!(!c.awaits(&ConsumerEvent::PipeDenied));
    assert!(!c.awaits(&ConsumerEvent::WriteFailed));
}

#[test]
fn report_holds_totals_and_differences() {
    let mut s = Summary::new();
    let first = Counters { read: 100, written: 40, prod_blocked_us: 2_999, cons_blocked_us: 0 };
    assert_eq!(
        s.tick(first),
        Report {
            read: 100,
            written: 40,
            d_read: 100,
            d_written: 40,
            prod_blocked_ms: 2,
            cons_blocked_ms: 0,
        }
    );
    let second = Counters { read: 150, written: 140, prod_blocked_us: 3_998, cons_blocked_us: 5_000 };
    assert_eq!(
        s.tick(second),
        Report {
            read: 150,
            written: 140,
            d_read: 50,
            d_written: 100,
            prod_blocked_ms: 0,
            cons_blocked_ms: 5,
        }
    );
}

#[test]
fn report_survives_a_wrapped_counter() {
    let mut s = Summary::new();
    s.tick(Counters { read: u64::MAX, written: 0, prod_blocked_us: 0, cons_blocked_us: 0 });
    let r = s.tick(Counters { read: 4, written: 0, prod_blocked_us: 0, cons_blocked_us: 0 });
    assert_eq!(r.d_read, 5);
}
