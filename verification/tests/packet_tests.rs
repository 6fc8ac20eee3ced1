use ah4c_stream::packet::{make_disc_packet, make_null, packet_pid, NULL_PID, PACKET_LEN, SYNC_BYTE};
use ah4c_stream::ts::TsProc;

#[test]
fn null_packet_bytes() {
    let v = make_null();
    assert_eq!(v.len(), 188);
    assert_eq!(&v[..4], &[0x47, 0x1F, 0xFF, 0x10]);
    assert!(v[4..].iter().all(|&b| b == 0xFF));
    assert_eq!(packet_pid(&v), NULL_PID);
    assert_eq!(TsProc::extract_pcr(&v), None);
}

#[test]
fn disc_packet_bytes() {
    let p = make_disc_packet(0x0123);
    assert_eq!(p.len(), PACKET_LEN);
    assert_eq!(&p[..6], &[SYNC_BYTE, 0x01, 0x23, 0x20, 183, 0x80]);
    assert!(p[6..].iter().all(|&b| b == 0xFF));
    assert_eq!(packet_pid(&p), 0x0123);
    assert_eq!(TsProc::extract_pcr(&p), None);
}

#[test]
fn disc_packet_keeps_thirteen_bits_of_the_pid() {
    let p = make_disc_packet(0xFFFF);
    assert_eq!(p[1], 0x1F);
    assert_eq!(p[2], 0xFF);
    assert_eq!(packet_pid(&p), 0x1FFF);
}

#[test]
fn pid_ignores_the_flags_beside_it() {
    assert_eq!(packet_pid(&[0x47, 0xE1, 0x00]), 0x0100);
    assert_eq!(packet_pid(&[0x47, 0x40, 0x00]), 0x0000);
    assert_eq!(packet_pid(&[0x47, 0xFF, 0xFF]), 0x1FFF);
}

#[test]
fn pcr_of_all_ones() {
    let p = [0x47, 0x01, 0x00, 0x30, 7, 0x10, 0xFF, 0xFF, 0xFF, 0xFF, 0xFF, 0xFF];
    assert_eq!(TsProc::extract_pcr(&p), Some(((1u64 << 33) - 1) * 300 + 511));
}

#[test]
fn pcr_of_single_bits() {
    let with = |i: usize, b: u8| {
        let mut p = [0u8; 12];
        p[0] = 0x47;
        p[3] = 0x20;
        p[4] = 183;
        p[5] = 0x10;
        p[i] = b;
        TsProc::extract_pcr(&p)
    };
    assert_eq!(with(6, 1), Some((1 << 25) * 300));
    assert_eq!(with(7, 1), Some((1 << 17) * 300));
    assert_eq!(with(8, 1), Some((1 << 9) * 300));
    assert_eq!(with(9, 1), Some(2 * 300));
    assert_eq!(with(10, 0x80), Some(300));
    assert_eq!(with(10, 0x01), Some(256));
    assert_eq!(with(10, 0x7E), Some(0));
    assert_eq!(with(11, 0xFF), Some(255));
}

#[test]
fn pcr_needs_field_length_and_flag() {
    let good = [0x47, 0x01, 0x00, 0x30, 7, 0x10, 0, 0, 0, 1, 0, 0];
    assert_eq!(TsProc::extract_pcr(&good), Some(600));
    assert_eq!(TsProc::extract_pcr(&good[..11]), None);
    let mut p = good;
    p[3] = 0x10;
    assert_eq!(TsProc::extract_pcr(&p), None);
    p[3] = 0x00;
    assert_eq!(TsProc::extract_pcr(&p), None);
    p = good;
    p[4] = 0;
    assert_eq!(TsProc::extract_pcr(&p), None);
    p = good;
    p[5] = 0xEF;
    assert_eq!(TsProc::extract_pcr(&p), None);
}
