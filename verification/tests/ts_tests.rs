use ah4c_stream::disc::{TsEvent, PCR_JUMP_FORWARD_TICKS};
use ah4c_stream::packet::{make_disc_packet, make_null};
use ah4c_stream::ts::TsProc;

/// A payload packet of `pid` filled with `fill`.
fn plain(pid: u16, fill: u8) -> Vec<u8> {
    let mut p = vec![fill; 188];
    p[0] = 0x47;
    p[1] = (pid >> 8) as u8;
    p[2] = (pid & 0xFF) as u8;
    p[3] = 0x10;
    p
}

/// A packet of `pid` with the clock reference `pcr`.
fn clocked(pid: u16, pcr: u64) -> Vec<u8> {
    let mut p = plain(pid, 0x11);
    let base = pcr / 300;
    let ext = pcr % 300;
    p[3] = 0x30;
    p[4] = 7;
    p[5] = 0x10;
    p[6] = (base >> 25) as u8;
    p[7] = (base >> 17) as u8;
    p[8] = (base >> 9) as u8;
    p[9] = (base >> 1) as u8;
    p[10] = ((base & 1) << 7) as u8 | 0x7E | (ext >> 8) as u8;
    p[11] = ext as u8;
    p
}

fn joined(parts: &[Vec<u8>]) -> Vec<u8> {
    parts.concat()
}

#[test]
fn packets_pass_unchanged() {
    let input = joined(&[plain(0x100, 1), plain(0x101, 2), plain(0, 3), make_null()]);
    let mut t = TsProc::new();
    assert_eq!(t.process(&input), input);
    assert!(t.events().is_empty());
}

#[test]
fn empty_input_gives_nothing() {
    let mut t = TsProc::new();
    assert!(t.process(&[]).is_empty());
}

#[test]
fn partial_packet_waits_for_its_rest() {
    let p = plain(0x100, 7);
    let mut t = TsProc::new();
    assert!(t.process(&p[..187]).is_empty());
    assert_eq!(t.process(&p[187..]), p);
}

#[test]
fn chunking_makes_no_difference() {
    let input = joined(&[
        vec![1, 2, 3],
        plain(0x100, 1),
        vec![9; 200],
        clocked(0x101, 1000),
        vec![8],
        clocked(0x101, 999),
        plain(0x100, 2),
        vec![5; 188],
        plain(0x102, 4)[..100].to_vec(),
    ]);
    let mut whole = TsProc::new();
    whole.mark_discontinuity();
    let expected = whole.process(&input);
    for size in [1usize, 7, 100, 187, 188, 189, 400] {
        let mut t = TsProc::new();
        t.mark_discontinuity();
        let mut got = Vec::new();
        for chunk in input.chunks(size) {
            got.extend(t.process(chunk));
        }
        assert_eq!(got, expected);
    }
}

#[test]
fn noise_is_skipped() {
    let p = plain(0x100, 1);
    let mut t = TsProc::new();
    assert!(t.process(&[0u8; 1000]).is_empty());
    assert_eq!(t.process(&joined(&[vec![1, 2, 3], p.clone()])), p);
    let q = plain(0x101, 2);
    assert_eq!(t.process(&joined(&[vec![0; 5], q.clone()])), q);
    assert_eq!(t.process(&joined(&[vec![0; 500], q.clone(), vec![0; 500]])), q);
    assert_eq!(t.process(&p), p);
}

#[test]
fn output_is_whole_packets() {
    let mut t = TsProc::new();
    t.mark_discontinuity();
    let mut input: Vec<u8> = Vec::new();
    let mut x: u32 = 12345;
    for _ in 0..20_000 {
        x = x.wrapping_mul(1_103_515_245).wrapping_add(12_345);
        input.push((x >> 16) as u8);
    }
    let mut out: Vec<u8> = Vec::new();
    for chunk in input.chunks(333) {
        out.extend(t.process(chunk));
    }
    assert!(!out.is_empty());
    assert_eq!(out.len() % 188, 0);
    assert!(out.chunks(188).all(|p| p[0] == 0x47));
}

#[test]
fn warm_path_holds_only_the_beginning_of_a_packet() {
    let stream = joined(&[plain(0x100, 1), plain(0, 2), plain(0x101, 3)]);
    let mut t = TsProc::new();
    assert_eq!(t.process(&stream[..200]), stream[..188]);
    assert_eq!(t.process(&stream[200..400]), stream[188..376]);
    assert!(t.process(&stream[400..563]).is_empty());
    assert_eq!(t.process(&stream[563..]), stream[376..]);
}

#[test]
fn discontinuity_is_announced_once_per_pid() {
    let mut t = TsProc::new();
    t.mark_discontinuity();
    let a = plain(0x100, 1);
    let b = plain(0x101, 2);
    let out = t.process(&joined(&[a.clone(), a.clone(), b.clone(), a.clone(), b.clone()]));
    let expected = joined(&[
        make_disc_packet(0x100).to_vec(),
        a.clone(),
        a.clone(),
        make_disc_packet(0x101).to_vec(),
        b.clone(),
        a.clone(),
        b.clone(),
    ]);
    assert_eq!(out, expected);
    assert_eq!(
        t.events(),
        &vec![TsEvent::Announced { pid: 0x100 }, TsEvent::Announced { pid: 0x101 }]
    );
    assert_eq!(t.process(&a), a);
    assert!(t.events().is_empty());
    t.mark_discontinuity();
    assert_eq!(t.process(&a), joined(&[make_disc_packet(0x100).to_vec(), a.clone()]));
    t.clear_events();
    assert!(t.events().is_empty());
}

#[test]
fn injecting_twice_is_injecting_once() {
    let mut t = TsProc::new();
    let mut out = vec![7];
    t.maybe_inject_disc(0x100, &mut out);
    assert_eq!(out, vec![7]);
    t.mark_discontinuity();
    t.maybe_inject_disc(0, &mut out);
    t.maybe_inject_disc(0x1FFF, &mut out);
    assert_eq!(out, vec![7]);
    t.maybe_inject_disc(0x100, &mut out);
    let once = joined(&[vec![7], make_disc_packet(0x100).to_vec()]);
    assert_eq!(out, once);
    assert_eq!(t.events(), &vec![TsEvent::Announced { pid: 0x100 }]);
    t.maybe_inject_disc(0x100, &mut out);
    assert_eq!(out, once);
    assert_eq!(t.events().len(), 1);
    t.mark_discontinuity();
    t.maybe_inject_disc(0x100, &mut out);
    assert_eq!(out, joined(&[once, make_disc_packet(0x100).to_vec()]));
}

#[test]
fn mark_is_announced_on_every_pid_also_behind_a_jump() {
    let mut t = TsProc::new();
    t.mark_discontinuity();
    let (a, b, c) = (clocked(0x100, 1_000), clocked(0x100, 999), plain(0x101, 1));
    let out = t.process(&joined(&[a.clone(), b.clone(), c.clone()]));
    let expected = joined(&[
        make_disc_packet(0x100).to_vec(),
        a,
        make_disc_packet(0x100).to_vec(),
        b,
        make_disc_packet(0x101).to_vec(),
        c,
    ]);
    assert_eq!(out, expected);
}

#[test]
fn table_and_null_packets_are_not_announced() {
    let mut t = TsProc::new();
    t.mark_discontinuity();
    let input = joined(&[plain(0, 1), make_null()]);
    assert_eq!(t.process(&input), input);
}

#[test]
fn clock_within_half_a_second_is_continuous() {
    let mut t = TsProc::new();
    let input = joined(&[
        clocked(0x100, 1_000),
        clocked(0x100, 1_000),
        clocked(0x100, 1_000 + PCR_JUMP_FORWARD_TICKS),
    ]);
    assert_eq!(t.process(&input), input);
    assert!(t.events().is_empty());
}

#[test]
fn clock_forward_jump_is_announced_in_front_of_it() {
    let mut t = TsProc::new();
    let first = clocked(0x100, 1_000);
    let next = clocked(0x100, 1_001 + PCR_JUMP_FORWARD_TICKS);
    let out = t.process(&joined(&[first.clone(), next.clone()]));
    assert_eq!(out, joined(&[first, make_disc_packet(0x100).to_vec(), next]));
    assert_eq!(
        t.events(),
        &vec![
            TsEvent::PcrJump { pid: 0x100, prev: 1_000, pcr: 1_001 + PCR_JUMP_FORWARD_TICKS },
            TsEvent::Announced { pid: 0x100 },
        ]
    );
}

#[test]
fn clock_backward_jump_is_announced_on_every_pid() {
    let mut t = TsProc::new();
    let other = plain(0x200, 5);
    t.process(&joined(&[clocked(0x100, 5_000), other.clone()]));
    let back = clocked(0x100, 4_999);
    let out = t.process(&joined(&[back.clone(), other.clone(), other.clone()]));
    assert_eq!(
        out,
        joined(&[
            make_disc_packet(0x100).to_vec(),
            back,
            make_disc_packet(0x200).to_vec(),
            other.clone(),
            other,
        ])
    );
}

#[test]
fn clocks_are_compared_per_pid_and_forgotten_at_a_discontinuity() {
    let mut t = TsProc::new();
    let input = joined(&[clocked(0x100, 1 << 40), clocked(0x101, 5)]);
    assert_eq!(t.process(&input), input);
    t.mark_discontinuity();
    let low = clocked(0x100, 7);
    assert_eq!(t.process(&low), joined(&[make_disc_packet(0x100).to_vec(), low.clone()]));
    assert_eq!(t.events(), &vec![TsEvent::Announced { pid: 0x100 }]);
}

#[test]
fn jump_on_the_table_pid_announces_on_the_others_only() {
    let mut t = TsProc::new();
    t.process(&clocked(0, 900));
    let back = clocked(0, 300);
    let other = plain(0x100, 1);
    assert_eq!(
        t.process(&joined(&[back.clone(), other.clone()])),
        joined(&[back, make_disc_packet(0x100).to_vec(), other])
    );
}
