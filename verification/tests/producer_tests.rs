use ah4c_stream::clock::{elapsed_us, slow_ms, us};
use ah4c_stream::disc::TsEvent;
use ah4c_stream::packet::make_disc_packet;
use ah4c_stream::producer::{
    Producer, ProducerAction, ProducerEvent, CHUNK, MAX_UNHEALTHY_NS, QUEUE_DEPTH,
    SRC_RECONNECT_BACKOFF_MS, SRC_STALL_RECONNECT_MS,
};

const SECOND: u128 = 1_000_000_000;

fn plain(pid: u16, fill: u8) -> Vec<u8> {
    let mut p = vec![fill; 188];
    p[0] = 0x47;
    p[1] = (pid >> 8) as u8;
    p[2] = (pid & 0xFF) as u8;
    p[3] = 0x10;
    p
}

fn read() -> ProducerAction {
    ProducerAction::Read { max: 32 * 1024, timeout_ms: 5_000 }
}

fn sleep() -> ProducerAction {
    ProducerAction::Sleep { ms: 2_000 }
}

#[test]
fn constants() {
    assert_eq!(CHUNK, 32_768);
    assert_eq!(QUEUE_DEPTH, 2);
    assert_eq!(SRC_STALL_RECONNECT_MS, 5_000);
    assert_eq!(SRC_RECONNECT_BACKOFF_MS, 2_000);
    assert_eq!(MAX_UNHEALTHY_NS, 15 * SECOND);
}

#[test]
fn microseconds() {
    assert_eq!(us(0), 0);
    assert_eq!(us(999), 0);
    assert_eq!(us(1_234_567), 1_234);
    assert_eq!(us((u64::MAX as u128 + 6) * 1000 + 7), 5);
    assert_eq!(elapsed_us(5_000, 12_999), 7);
    assert_eq!(elapsed_us(12_999, 5_000), 0);
}

#[test]
fn slow_operations() {
    assert_eq!(slow_ms(10_000), None);
    assert_eq!(slow_ms(10_001), Some(10));
    assert_eq!(slow_ms(25_999), Some(25));
}

#[test]
fn starts_reading_without_leftover() {
    let (p, a) = Producer::start(&[], 7 * SECOND);
    assert_eq!(a, read());
    assert_eq!(p.bytes_read(), 0);
    assert_eq!(p.last_data_us(), 0);
    assert_eq!(p.blocked_us(), 0);
    assert!(p.events().is_empty());
}

#[test]
fn leftover_is_processed_first() {
    let packet = plain(0x100, 1);
    let (mut p, a) = Producer::start(&packet, 7 * SECOND);
    assert_eq!(a, ProducerAction::Send(packet));
    assert_eq!(p.bytes_read(), 188);
    assert_eq!(p.last_data_us(), 7_000_000);
    assert_eq!(p.step(ProducerEvent::Sent { now_ns: 8 * SECOND }), read());
    assert_eq!(p.blocked_us(), 0);
}

#[test]
fn short_leftover_has_nothing_to_send() {
    let (mut p, a) = Producer::start(&[0x47, 0x01], 0);
    assert_eq!(a, ProducerAction::Settle);
    assert_eq!(p.step(ProducerEvent::Sent { now_ns: 1 }), read());
    assert_eq!(p.bytes_read(), 2);
}

#[test]
fn reads_are_sent_and_counted() {
    let (mut p, _) = Producer::start(&[], 0);
    let packet = plain(0x100, 1);
    let a = p.step(ProducerEvent::Read { data: packet[..100].to_vec(), now_ns: SECOND });
    assert_eq!(a, ProducerAction::Settle);
    assert_eq!(p.last_data_us(), 1_000_000);
    assert_eq!(p.step(ProducerEvent::Sent { now_ns: SECOND + 3_000 }), read());
    assert_eq!(p.blocked_us(), 3);
    let a = p.step(ProducerEvent::Read { data: packet[100..].to_vec(), now_ns: 2 * SECOND });
    assert_eq!(a, ProducerAction::Send(packet));
    assert_eq!(p.bytes_read(), 188);
    assert_eq!(p.step(ProducerEvent::Sent { now_ns: 2 * SECOND + 4_999 }), read());
    assert_eq!(p.blocked_us(), 7);
}

#[test]
fn closed_queue_ends_it() {
    let (mut p, _) = Producer::start(&plain(0x100, 1), 0);
    assert_eq!(p.step(ProducerEvent::SendFailed), ProducerAction::Stop);
}

#[test]
fn idle_source_is_reconnected_and_marked() {
    let packet = plain(0x100, 1);
    let (mut p, _) = Producer::start(&packet, 0);
    p.step(ProducerEvent::Sent { now_ns: 0 });
    let a = p.step(ProducerEvent::ReadFailed { now_ns: 5 * SECOND });
    assert_eq!(a, ProducerAction::Close);
    assert_eq!(p.step(ProducerEvent::Closed), ProducerAction::Connect);
    assert_eq!(p.step(ProducerEvent::ConnectFailed), sleep());
    assert_eq!(p.step(ProducerEvent::Woke { now_ns: 7 * SECOND }), ProducerAction::Connect);
    let a = p.step(ProducerEvent::Connected { leftover: Vec::new(), now_ns: 8 * SECOND });
    assert_eq!(a, read());
    let a = p.step(ProducerEvent::Read { data: packet.clone(), now_ns: 9 * SECOND });
    let expected = [make_disc_packet(0x100).to_vec(), packet].concat();
    assert_eq!(a, ProducerAction::Send(expected));
    assert_eq!(p.events(), &vec![TsEvent::Announced { pid: 0x100 }]);
    p.step(ProducerEvent::Sent { now_ns: 9 * SECOND });
    assert!(p.events().is_empty());
}

#[test]
fn end_of_stream_is_reconnected() {
    let (mut p, _) = Producer::start(&[], 0);
    let a = p.step(ProducerEvent::Read { data: Vec::new(), now_ns: SECOND });
    assert_eq!(a, ProducerAction::Close);
    assert!(p.awaits(&ProducerEvent::Closed));
    assert!(!p.awaits(&ProducerEvent::ConnectFailed));
    assert_eq!(p.step(ProducerEvent::Closed), ProducerAction::Connect);
    assert_eq!(p.last_data_us(), 0);
}

#[test]
fn leftover_of_a_reconnection_is_marked_but_not_counted() {
    let packet = plain(0x100, 1);
    let (mut p, _) = Producer::start(&[], 0);
    p.step(ProducerEvent::ReadFailed { now_ns: 5 * SECOND });
    p.step(ProducerEvent::Closed);
    let a = p.step(ProducerEvent::Connected { leftover: packet.clone(), now_ns: 6 * SECOND });
    assert_eq!(a, ProducerAction::Send([make_disc_packet(0x100).to_vec(), packet].concat()));
    assert_eq!(p.bytes_read(), 0);
    assert_eq!(p.last_data_us(), 6_000_000);
    assert_eq!(p.step(ProducerEvent::Sent { now_ns: 9 * SECOND }), read());
    assert_eq!(p.blocked_us(), 0);
    let a = p.step(ProducerEvent::ReadFailed { now_ns: 21 * SECOND });
    assert_eq!(a, ProducerAction::Close);
    assert_eq!(p.step(ProducerEvent::Closed), ProducerAction::Connect);
    assert_eq!(p.step(ProducerEvent::ConnectFailed), sleep());
    assert_eq!(p.step(ProducerEvent::Woke { now_ns: 21 * SECOND + 1 }), ProducerAction::Stop);
}

#[test]
fn leftover_of_a_late_reconnection_starts_the_time_anew() {
    let (mut p, _) = Producer::start(&[], 0);
    p.step(ProducerEvent::ReadFailed { now_ns: 5 * SECOND });
    p.step(ProducerEvent::Closed);
    p.step(ProducerEvent::ConnectFailed);
    let a = p.step(ProducerEvent::Woke { now_ns: 14 * SECOND });
    assert_eq!(a, ProducerAction::Connect);
    let late = 14 * SECOND + SECOND / 10 * 9;
    p.step(ProducerEvent::Connected { leftover: vec![1], now_ns: late });
    assert_eq!(p.step(ProducerEvent::Sent { now_ns: 15 * SECOND + 1 }), read());
    let a = p.step(ProducerEvent::ReadFailed { now_ns: late + 15 * SECOND + 1 });
    assert_eq!(a, ProducerAction::Stop);
}

#[test]
fn reconnection_that_brings_nothing_does_not_extend_the_time() {
    let (mut p, _) = Producer::start(&[], 0);
    p.step(ProducerEvent::ReadFailed { now_ns: 5 * SECOND });
    p.step(ProducerEvent::Closed);
    let a = p.step(ProducerEvent::Connected { leftover: Vec::new(), now_ns: 15 * SECOND });
    assert_eq!(a, read());
    assert_eq!(p.last_data_us(), 0);
    let a = p.step(ProducerEvent::ReadFailed { now_ns: 15 * SECOND + 1 });
    assert_eq!(a, ProducerAction::Stop);
}

#[test]
fn first_connection_sends_all_from_behind_the_headers_on() {
    let packet = plain(0x100, 1);
    let (mut p, a) = Producer::start(&packet[..50], 0);
    assert_eq!(a, ProducerAction::Settle);
    p.step(ProducerEvent::Sent { now_ns: 0 });
    let a = p.step(ProducerEvent::Read { data: packet[50..].to_vec(), now_ns: 1 });
    assert_eq!(a, ProducerAction::Send(packet));
}

#[test]
fn gives_up_after_more_than_fifteen_seconds() {
    let (mut p, _) = Producer::start(&[], 0);
    p.step(ProducerEvent::Read { data: vec![1], now_ns: 3 * SECOND });
    p.step(ProducerEvent::Sent { now_ns: 3 * SECOND });
    assert_eq!(p.step(ProducerEvent::ReadFailed { now_ns: 8 * SECOND }), ProducerAction::Close);
    assert_eq!(p.step(ProducerEvent::Closed), ProducerAction::Connect);
    assert_eq!(p.step(ProducerEvent::ConnectFailed), sleep());
    assert_eq!(p.step(ProducerEvent::Woke { now_ns: 18 * SECOND }), ProducerAction::Connect);
    assert_eq!(p.step(ProducerEvent::ConnectFailed), sleep());
    assert_eq!(p.step(ProducerEvent::Woke { now_ns: 18 * SECOND + 1 }), ProducerAction::Stop);
}

#[test]
fn only_answers_to_the_request_are_awaited() {
    let (p, _) = Producer::start(&[], 0);
    assert!(p.awaits(&ProducerEvent::Read { data: vec![1], now_ns: 0 }));
    assert!(p.awaits(&ProducerEvent::ReadFailed { now_ns: 0 }));
    assert!(!p.awaits(&ProducerEvent::Sent { now_ns: 0 }));
    assert!(!p.awaits(&ProducerEvent::SendFailed));
    assert!(!p.awaits(&ProducerEvent::Closed));
    assert!(!p.awaits(&ProducerEvent::Connected { leftover: Vec::new(), now_ns: 0 }));
    assert!(!p.awaits(&ProducerEvent::ConnectFailed));
    assert!(!p.awaits(&ProducerEvent::Woke { now_ns: 0 }));
}
